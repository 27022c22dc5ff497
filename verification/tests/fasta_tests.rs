use std::io::Cursor;

use kmer_count::fasta::{SeqLoader, SeqRecord};
use kmer_count::fasta_read;
use kmer_count::sequence::SeqBuf;

#[test]
fn test_haystack() {
    let haystack = SeqRecord::new("identifier", "sequence");
    assert_eq!(haystack.identifier.as_str(), "identifier");
    assert_eq!(haystack.sequence, "SEQUENCE".chars().collect::<Vec<char>>());
}

#[test]
fn test_next() {
    let file = Cursor::new(String::from("> foo\nabcd\n> bar\ndcba"));
    let mut haystacks = SeqLoader::new(file);

    let first = haystacks.next().unwrap();
    assert_eq!(first.identifier, "foo");
    assert_eq!(first.sequence, "ABCD".chars().collect::<Vec<char>>());

    let second = haystacks.next().unwrap();
    assert_eq!(second.identifier, "bar");
    assert_eq!(second.sequence, "DCBA".chars().collect::<Vec<char>>());

    assert!(haystacks.next().is_none());
}

#[test]
fn test_seq_equality() {
    let s0 = SeqRecord::new("foo", "abcd");
    let s1 = SeqRecord::new("foo", "abcd");
    let s2 = SeqRecord::new("bar", "abcd");
    let s3 = SeqRecord::new("foo", "dcba");

    assert_eq!(s0, s1);
    assert_ne!(s0, s2);
    assert_ne!(s0, s3);
}

#[test]
fn test_next_line() {
    let file = Cursor::new(String::from(">foo\nabcd\n>bar\ndcba"));
    let mut loader = fasta_read::SeqLoader::from_bufread(file);

    assert_eq!(loader.line_length, 4);
    assert_eq!(loader.line_buffer[1] as char, 'f');

    loader.next_line();
    assert_eq!(loader.line_length, 4);
    assert_eq!(loader.line_buffer[0] as char, 'a');

    loader.next_line();
    assert_eq!(loader.line_length, 4);
    assert_eq!(loader.line_buffer[1] as char, 'b');

    loader.next_line();
    assert_eq!(loader.line_length, 4);
    assert_eq!(loader.line_buffer[0] as char, 'd');

    loader.next_line();
    assert_eq!(loader.line_length, 0);
}

#[test]
fn test_read_simple() {
    let file = Cursor::new(String::from(">foo\nabcd\n>bar\ndcba"));
    let mut loader = fasta_read::SeqLoader::from_bufread(file);
    let seq = &mut SeqBuf::new();

    assert_eq!(seq.identifier, "");
    assert_eq!(
        seq.characters[0..seq.length],
        Vec::<char>::new()[0..seq.length]
    );

    assert_eq!(loader.next_seq(seq), true);
    assert_eq!(seq.identifier, "foo");
    assert_eq!(
        seq.characters[0..seq.length],
        "ABCD".chars().collect::<Vec<char>>()[0..seq.length]
    );

    assert_eq!(loader.next_seq(seq), true);
    assert_eq!(seq.identifier, "bar");
    assert_eq!(
        seq.characters[0..seq.length],
        "DCBA".chars().collect::<Vec<char>>()[0..seq.length]
    );

    assert_eq!(loader.next_seq(seq), false);
}

#[test]
fn test_pre_filled_record() {
    let seq = SeqBuf::pre_filled("id42", "ACGT");
    assert_eq!(seq.identifier, "id42");
    assert_eq!(seq.length, 4);
    assert_eq!(
        seq.characters[0..4],
        "ACGT".chars().collect::<Vec<char>>()[0..4]
    );
}

#[test]
fn test_multi_line_record() {
    let file = Cursor::new(String::from(">one\nab\ncd\n>two\nefgh"));
    let mut haystacks = SeqLoader::new(file);

    let first = haystacks.next().unwrap();
    assert_eq!(first.identifier, "one");
    assert_eq!(first.sequence, "ABCD".chars().collect::<Vec<char>>());

    let second = haystacks.next().unwrap();
    assert_eq!(second.identifier, "two");
    assert_eq!(second.sequence, "EFGH".chars().collect::<Vec<char>>());

    assert!(haystacks.next().is_none());
}
