use exactsub::{exactsubst, exactsubst0, Error, Source};

fn run(from: &[u8], to: &[u8], input: &[u8]) -> (Vec<u8>, u32) {
    let mut inp = Source::new(input.to_vec());
    let mut out: Vec<u8> = Vec::new();
    let occurs = exactsubst(from, to, &mut inp, &mut out).unwrap();
    assert_eq!(inp.remaining_len(), 0);
    (out, occurs)
}

fn run_chunked(from: &[u8], to: &[u8], input: &[u8], limit: usize) -> (Vec<u8>, u32) {
    let mut inp = Source::chunked(input.to_vec(), limit);
    let mut out: Vec<u8> = Vec::new();
    let occurs = exactsubst(from, to, &mut inp, &mut out).unwrap();
    assert_eq!(inp.remaining_len(), 0);
    (out, occurs)
}

#[test]
fn literal_example() {
    let (out, occurs) = run(b"cat", b"dog", b"concatenate the cat");
    assert_eq!(out, b"condogenate the dog".to_vec());
    assert_eq!(occurs, 2);
}

#[test]
fn overlapping_occurrences_are_taken_from_the_left() {
    let (out, occurs) = run(b"aa", b"b", b"aaa");
    assert_eq!(out, b"ba".to_vec());
    assert_eq!(occurs, 1);
}

#[test]
fn four_in_a_row_are_two_occurrences() {
    let (out, occurs) = run(b"aa", b"b", b"aaaa");
    assert_eq!(out, b"bb".to_vec());
    assert_eq!(occurs, 2);
}

#[test]
fn empty_pattern_on_abc() {
    let (out, occurs) = run(b"", b"X", b"abc");
    assert_eq!(out, b"XaXbXcX".to_vec());
    assert_eq!(occurs, 4);
}

#[test]
fn empty_pattern_on_empty_input() {
    let (out, occurs) = run(b"", b"X", b"");
    assert_eq!(out, b"X".to_vec());
    assert_eq!(occurs, 1);
}

#[test]
fn empty_pattern_and_empty_replacement() {
    let (out, occurs) = run(b"", b"", b"abc");
    assert_eq!(out, b"abc".to_vec());
    assert_eq!(occurs, 4);
}

#[test]
fn exactsubst0_on_abc() {
    let mut inp = Source::new(b"abc".to_vec());
    let mut out: Vec<u8> = Vec::new();
    let occurs = exactsubst0(b"X", &mut inp, &mut out);
    assert_eq!(out, b"XaXbXcX".to_vec());
    assert_eq!(occurs, 4);
    assert_eq!(inp.remaining_len(), 0);
}

#[test]
fn exactsubst0_on_empty_input() {
    let mut inp = Source::new(Vec::new());
    let mut out: Vec<u8> = Vec::new();
    let occurs = exactsubst0(b"X", &mut inp, &mut out);
    assert_eq!(out, b"X".to_vec());
    assert_eq!(occurs, 1);
}

#[test]
fn exactsubst0_with_a_longer_replacement() {
    let mut inp = Source::chunked(b"ab".to_vec(), 5);
    let mut out: Vec<u8> = Vec::new();
    let occurs = exactsubst0(b"<>", &mut inp, &mut out);
    assert_eq!(out, b"<>a<>b<>".to_vec());
    assert_eq!(occurs, 3);
}

#[test]
fn output_is_appended_to_what_the_sink_holds() {
    let mut inp = Source::new(b"a cat".to_vec());
    let mut out: Vec<u8> = b">> ".to_vec();
    let occurs = exactsubst(b"cat", b"dog", &mut inp, &mut out);
    assert_eq!(occurs, Ok(1));
    assert_eq!(out, b">> a dog".to_vec());
}

#[test]
fn a_source_is_read_from_where_it_stands() {
    let mut inp = Source::new(b"cat cat".to_vec());
    let mut skipped = [0u8; 4];
    assert_eq!(exactsub::checked_read(&mut inp, &mut skipped, 0), 4);
    let mut out: Vec<u8> = Vec::new();
    let occurs = exactsubst(b"cat", b"dog", &mut inp, &mut out);
    assert_eq!(occurs, Ok(1));
    assert_eq!(out, b"dog".to_vec());
}

#[test]
fn identity_where_the_pattern_does_not_occur() {
    let input = b"the quick brown fox jumps over the lazy dog";
    let (out, occurs) = run(b"cat", b"dog", input);
    assert_eq!(out, input.to_vec());
    assert_eq!(occurs, 0);
}

#[test]
fn identity_on_empty_input() {
    let (out, occurs) = run(b"cat", b"dog", b"");
    assert_eq!(out, Vec::<u8>::new());
    assert_eq!(occurs, 0);
}

#[test]
fn identity_on_input_shorter_than_the_pattern() {
    let (out, occurs) = run(b"concatenate", b"x", b"concat");
    assert_eq!(out, b"concat".to_vec());
    assert_eq!(occurs, 0);
}

#[test]
fn an_unfinished_occurrence_at_the_end_is_copied() {
    let (out, occurs) = run(b"cat", b"dog", b"catca");
    assert_eq!(out, b"dogca".to_vec());
    assert_eq!(occurs, 1);
}

#[test]
fn input_equal_to_the_pattern() {
    let (out, occurs) = run(b"cat", b"dog", b"cat");
    assert_eq!(out, b"dog".to_vec());
    assert_eq!(occurs, 1);
}

#[test]
fn empty_replacement_deletes() {
    let (out, occurs) = run(b"cat", b"", b"concatenate the cat");
    assert_eq!(out, b"conenate the ".to_vec());
    assert_eq!(occurs, 2);
}

#[test]
fn replacement_equal_to_the_pattern() {
    let (out, occurs) = run(b"cat", b"cat", b"concatenate the cat");
    assert_eq!(out, b"concatenate the cat".to_vec());
    assert_eq!(occurs, 2);
}

#[test]
fn written_bytes_are_not_scanned_again() {
    let (out, occurs) = run(b"a", b"aa", b"aaa");
    assert_eq!(out, b"aaaaaa".to_vec());
    assert_eq!(occurs, 3);
    let (out, occurs) = run(b"ab", b"xaby", b"ab-ab");
    assert_eq!(out, b"xaby-xaby".to_vec());
    assert_eq!(occurs, 2);
}

#[test]
fn byte_count_of_the_output() {
    let from = b"ab";
    let to = b"xyz!";
    let input = b"ab..abab...a.b.ab";
    let (out, occurs) = run(from, to, input);
    assert_eq!(occurs, 4);
    assert_eq!(out.len(), input.len() - 4 * from.len() + 4 * to.len());
    assert_eq!(out, b"xyz!..xyz!xyz!...a.b.xyz!".to_vec());
}

#[test]
fn byte_count_of_the_output_for_the_empty_pattern() {
    let (out, occurs) = run(b"", b"--", b"12345");
    assert_eq!(occurs, 6);
    assert_eq!(out.len(), 5 + 6 * 2);
}

#[test]
fn second_run_changes_nothing_where_the_pattern_is_gone() {
    let (first, occurs) = run(b"cat", b"dog", b"concatenate the cat");
    assert_eq!(occurs, 2);
    let (second, again) = run(b"cat", b"dog", &first);
    assert_eq!(second, first);
    assert_eq!(again, 0);
}

#[test]
fn second_run_finds_an_occurrence_that_the_first_one_made() {
    let (first, occurs) = run(b"ab", b"a", b"abb");
    assert_eq!(first, b"ab".to_vec());
    assert_eq!(occurs, 1);
    let (second, again) = run(b"ab", b"a", &first);
    assert_eq!(second, b"a".to_vec());
    assert_eq!(again, 1);
}

#[test]
fn every_byte_value_passes_through() {
    let mut input: Vec<u8> = Vec::new();
    for round in 0..3 {
        for b in 0..=255u8 {
            input.push(b.wrapping_add(round));
        }
    }
    let (out, occurs) = run(&[7, 7, 7], &[1], &input);
    assert_eq!(out, input);
    assert_eq!(occurs, 0);
}

#[test]
fn zero_bytes_are_bytes_like_any_other() {
    let from = [0u8, 255, 0];
    let to = [0u8, 0];
    let input = [1u8, 0, 255, 0, 0, 0, 255, 0, 255, 0, 2];
    let (out, occurs) = run(&from, &to, &input);
    assert_eq!(out, vec![1u8, 0, 0, 0, 0, 0, 255, 0, 2]);
    assert_eq!(occurs, 2);
}

#[test]
fn pattern_of_a_single_zero_byte() {
    let (out, occurs) = run(&[0], &[10, 13], &[0, 1, 0, 0, 2]);
    assert_eq!(out, vec![10u8, 13, 1, 10, 13, 10, 13, 2]);
    assert_eq!(occurs, 3);
}

#[test]
fn every_byte_value_can_be_pattern_and_replacement() {
    for b in 0..=255u8 {
        let other = b.wrapping_add(128);
        let input = [other, b, other, b, b];
        let (out, occurs) = run(&[b], &[other, other], &input);
        assert_eq!(out, vec![other, other, other, other, other, other, other, other]);
        assert_eq!(occurs, 3);
    }
}

#[test]
fn occurrence_across_two_reads_at_every_offset() {
    let from = b"needle";
    let to = b"pin";
    for lead in 0..20usize {
        let mut input = vec![b'.'; lead];
        input.extend_from_slice(from);
        input.extend_from_slice(b"..");
        let mut expected = vec![b'.'; lead];
        expected.extend_from_slice(to);
        expected.extend_from_slice(b"..");
        for limit in 1..12usize {
            let (out, occurs) = run_chunked(from, to, &input, limit);
            assert_eq!(out, expected, "lead {} limit {}", lead, limit);
            assert_eq!(occurs, 1);
        }
    }
}

#[test]
fn occurrence_across_the_end_of_the_working_buffer() {
    let from = b"needle";
    let to = b"thread";
    for lead in 1015..1030usize {
        let mut input = vec![b'.'; lead];
        input.extend_from_slice(from);
        input.extend_from_slice(&vec![b'-'; 2000]);
        input.extend_from_slice(from);
        let mut expected = vec![b'.'; lead];
        expected.extend_from_slice(to);
        expected.extend_from_slice(&vec![b'-'; 2000]);
        expected.extend_from_slice(to);
        let (out, occurs) = run(from, to, &input);
        assert_eq!(out, expected, "lead {}", lead);
        assert_eq!(occurs, 2);
    }
}

#[test]
fn one_byte_reads_give_the_same_as_one_read() {
    let input = b"concatenate the cat with the catalogue of cats, ca";
    let (whole, n_whole) = run(b"cat", b"dog", input);
    let (bytewise, n_bytewise) = run_chunked(b"cat", b"dog", input, 1);
    assert_eq!(whole, bytewise);
    assert_eq!(n_whole, n_bytewise);
    assert_eq!(n_whole, 4);
}

#[test]
fn repeated_pattern_bytes_across_reads() {
    for limit in 1..9usize {
        let (out, occurs) = run_chunked(b"aa", b"b", b"aaaaaaa", limit);
        assert_eq!(out, b"bbba".to_vec(), "limit {}", limit);
        assert_eq!(occurs, 3);
    }
}

#[test]
fn pattern_longer_than_the_smallest_buffer() {
    let mut from = vec![b'a'; 1500];
    from.push(b'b');
    let mut input = vec![b'a'; 1700];
    input.push(b'b');
    input.extend_from_slice(&vec![b'a'; 1499]);
    input.push(b'b');
    input.extend_from_slice(&from);
    let mut expected = vec![b'a'; 200];
    expected.extend_from_slice(b"<>");
    expected.extend_from_slice(&vec![b'a'; 1499]);
    expected.push(b'b');
    expected.extend_from_slice(b"<>");
    for limit in [1usize, 7, 1024, 2047, 2048, 5000] {
        let (out, occurs) = run_chunked(&from, b"<>", &input, limit);
        assert_eq!(out, expected, "limit {}", limit);
        assert_eq!(occurs, 2);
    }
}

#[test]
fn pattern_of_just_the_smallest_capacity() {
    let from = vec![b'q'; 1024];
    let mut input = vec![b'q'; 1023];
    input.push(b'r');
    input.extend_from_slice(&vec![b'q'; 2049]);
    let mut expected = vec![b'q'; 1023];
    expected.push(b'r');
    expected.extend_from_slice(b"QQ");
    expected.push(b'q');
    let (out, occurs) = run(&from, b"Q", &input);
    assert_eq!(out, expected);
    assert_eq!(occurs, 2);
}

#[test]
fn many_occurrences_in_a_long_input() {
    let mut input: Vec<u8> = Vec::new();
    let mut expected: Vec<u8> = Vec::new();
    for i in 0..5000u32 {
        input.extend_from_slice(b"ab");
        expected.extend_from_slice(b"X");
        if i % 3 == 0 {
            input.push(b'a');
            expected.push(b'a');
        }
    }
    for limit in [1usize, 2, 3, 1000, 1024, 4096] {
        let (out, occurs) = run_chunked(b"ab", b"X", &input, limit);
        assert_eq!(out, expected, "limit {}", limit);
        assert_eq!(occurs, 5000);
    }
}

#[test]
fn error_message_of_pattern_too_large() {
    assert_eq!(Error::PatternTooLarge.message(), "pattern too large");
}
