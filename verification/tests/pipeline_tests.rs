use redumb::chunk::ChunkSplitter;
use redumb::dictionary::Dictionary;
use redumb::process::{chunk_file_name, decode_chunk, encode_chunk, merge_dict_files,
    parse_chunk_index, sort_indices, DecodeMode};
use redumb::tokenize::tokenize_text;

#[test]
fn tokenizer_splits_by_grammar() {
    assert_eq!(tokenize_text("abc123"), vec!["abc123"]);
    assert_eq!(tokenize_text("123abc"), vec!["123", "abc"]);
    assert_eq!(tokenize_text("12 ab"), vec!["12", " ", "ab"]);
    assert_eq!(tokenize_text("a,b"), vec!["a", ",", "b"]);
    assert_eq!(tokenize_text("&amp;x"), vec!["&amp;", "x"]);
    assert_eq!(tokenize_text("&Amp;"), vec!["&", "Amp", ";"]);
    assert_eq!(tokenize_text("\u{4}w6k=\u{5}"), vec!["\u{4}w6k=\u{5}"]);
    assert_eq!(tokenize_text("\u{2}3\u{2}"), vec!["\u{2}3\u{2}"]);
    assert_eq!(tokenize_text("a\u{1}\u{3}b"), vec!["a", "\u{1}", "\u{3}", "b"]);
}

#[test]
fn dictionary_assigns_first_seen_indices() {
    let toks: Vec<String> = ["aa", "bb", "aa", "cc", "bb"].iter().map(|s| s.to_string()).collect();
    let d = Dictionary::new(&toks);
    assert_eq!(d.idx_to_token, vec!["aa", "bb", "cc"]);
    assert_eq!(d.index_of(&"aa".to_string()), Some(0));
    assert_eq!(d.index_of(&"bb".to_string()), Some(1));
    assert_eq!(d.index_of(&"cc".to_string()), Some(2));
    assert_eq!(d.index_of(&"zz".to_string()), None);
}

#[test]
fn dictionary_is_deterministic_across_builds() {
    let toks: Vec<String> = ["x", "y", "x", "z"].iter().map(|s| s.to_string()).collect();
    let d1 = Dictionary::new(&toks);
    let d2 = Dictionary::new(&toks);
    assert_eq!(d1.idx_to_token, d2.idx_to_token);
    for t in &toks {
        assert_eq!(d1.index_of(t), d2.index_of(t));
    }
}

#[test]
fn encode_chunk_renders_exact_artifacts() {
    let a = encode_chunk(b"aa bb aa");
    assert_eq!(a.dict, b"aa\n \nbb\n");
    assert_eq!(a.sdict, b" \naa\nbb\n");
    assert_eq!(a.enc, b"0 1 2 1 0 ");
}

#[test]
fn decode_chunk_round_trips_encode_chunk() {
    let text = "Hello,   World!\nCaf\u{e9}\tBonjour";
    let a = encode_chunk(text.as_bytes());
    let out = decode_chunk(&a.dict, &a.enc, DecodeMode::Strict).unwrap();
    assert_eq!(out, text.as_bytes());
    let lossy = decode_chunk(&a.dict, &a.enc, DecodeMode::Lossy).unwrap();
    assert_eq!(lossy, text.as_bytes());
}

#[test]
fn decode_round_trips_whitespace_heavy_ascii() {
    for text in ["", "  lead", "trail   ", "a   b  c 5", "1  2", "x &gt; y"] {
        let a = encode_chunk(text.as_bytes());
        let out = decode_chunk(&a.dict, &a.enc, DecodeMode::Strict).unwrap();
        assert_eq!(out, text.as_bytes());
    }
}

#[test]
fn decode_missing_index_is_skipped_or_fails() {
    let dict = b"aa\n";
    let enc = b"0 5 0 ";
    assert_eq!(decode_chunk(dict, enc, DecodeMode::Lossy).unwrap(), b"aaaa");
    assert!(decode_chunk(dict, enc, DecodeMode::Strict).is_err());
    let bad = b"0 x 0 ";
    assert_eq!(decode_chunk(dict, bad, DecodeMode::Lossy).unwrap(), b"aaaa");
    assert!(decode_chunk(dict, bad, DecodeMode::Strict).is_err());
}

#[test]
fn decode_deduplicates_dictionary_lines() {
    // a duplicated line gets no second index: the rebuild uses the same
    // first-seen assignment as the encoder
    let dict = b"aa\naa\nbb\n";
    let enc = b"1 0 ";
    assert_eq!(decode_chunk(dict, enc, DecodeMode::Strict).unwrap(), b"bbaa");
}

#[test]
fn splitter_never_cuts_a_character() {
    // "héllo" is 68 C3 A9 6C 6C 6F; cut between C3 and A9
    let bytes = "héllo".as_bytes();
    let mut sp = ChunkSplitter::new();
    let first = sp.push(&bytes[..2]).unwrap();
    assert_eq!(first, b"h");
    let second = sp.push(&bytes[2..]).unwrap();
    assert_eq!(second, &bytes[1..]);
    assert!(sp.finish().is_ok());
    let mut joined = first.clone();
    joined.extend_from_slice(&second);
    assert_eq!(joined, bytes);
}

#[test]
fn splitter_rejects_invalid_bytes() {
    let mut sp = ChunkSplitter::new();
    assert!(sp.push(&[0x61, 0xff, 0x62]).is_err());
    let mut sp2 = ChunkSplitter::new();
    // a dangling prefix is carried, and finish reports it
    assert_eq!(sp2.push(&[0x61, 0xc3]).unwrap(), b"a");
    assert!(sp2.finish().is_err());
}

#[test]
fn chunked_stream_round_trips() {
    let text = "Hello,   World!\nCafé\tBonjour — 東京 12  34";
    let bytes = text.as_bytes();
    let mut sp = ChunkSplitter::new();
    let mut restored: Vec<u8> = Vec::new();
    for piece in bytes.chunks(5) {
        let chunk = sp.push(piece).unwrap();
        if !chunk.is_empty() {
            let a = encode_chunk(&chunk);
            let out = decode_chunk(&a.dict, &a.enc, DecodeMode::Strict).unwrap();
            restored.extend_from_slice(&out);
        }
    }
    assert!(sp.finish().is_ok());
    assert_eq!(restored, bytes);
}

#[test]
fn merge_counts_and_deduplicates() {
    let files = vec![b"aa\nbb\n".to_vec(), b"bb\ncc\n".to_vec()];
    let r = merge_dict_files(&files);
    assert_eq!(r.total, 4);
    assert_eq!(r.unique, 3);
    assert!(r.unique <= r.total);
    assert_eq!(r.merged, b"aa\nbb\ncc\n");
}

#[test]
fn merge_without_duplicates_keeps_every_entry() {
    let files = vec![b"aa\n".to_vec(), b"bb\ncc\n".to_vec()];
    let r = merge_dict_files(&files);
    assert_eq!(r.total, 3);
    assert_eq!(r.unique, 3);
    assert_eq!(r.merged, b"aa\nbb\ncc\n");
}

#[test]
fn chunk_file_names_are_zero_padded() {
    assert_eq!(chunk_file_name(7, ".dict"), b"chunk_007.dict");
    assert_eq!(chunk_file_name(42, ".enc"), b"chunk_042.enc");
    assert_eq!(chunk_file_name(1234, ".sdict"), b"chunk_1234.sdict");
}

#[test]
fn chunk_file_names_parse_back() {
    assert_eq!(parse_chunk_index("chunk_007.enc", ".enc"), Some(7));
    assert_eq!(parse_chunk_index("chunk_12.enc", ".enc"), Some(12));
    assert_eq!(parse_chunk_index("chunk_.enc", ".enc"), None);
    assert_eq!(parse_chunk_index("chunk_7.dict", ".enc"), None);
    assert_eq!(parse_chunk_index("other.enc", ".enc"), None);
    assert_eq!(parse_chunk_index("chunk_7x.enc", ".enc"), None);
}

#[test]
fn indices_sort_ascending() {
    let mut v = vec![5usize, 1, 4, 1, 3];
    sort_indices(&mut v);
    assert_eq!(v, vec![1, 1, 3, 4, 5]);
}
