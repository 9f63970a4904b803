use pointers::{Delimiter, StrSplit};

fn until_char(s: &str, c: char) -> &'_ str {
    let delim = format!("{}", c);
    StrSplit::new(s, &*delim)
        .next()
        .expect("StrSplit always gives at least one result")
}

#[test]
fn until_char_test() {
    assert_eq!(until_char("hello world", 'o'), "hell");
}

#[test]
fn it_works() {
    let haystack = "a b c d e";
    let letters: Vec<_> = StrSplit::new(haystack, " ").collect();
    assert_eq!(letters, vec!["a", "b", "c", "d", "e"]);
}

#[test]
fn tail() {
    let haystack = "a b c d ";
    let letters: Vec<_> = StrSplit::new(haystack, " ").collect();
    assert_eq!(letters, vec!["a", "b", "c", "d", ""]);
}

#[test]
fn split_test_01() {
    let haystack = "Mary had a little lamb";
    let splits: Vec<_> = StrSplit::new(haystack, " ").collect();
    assert_eq!(splits, ["Mary", "had", "a", "little", "lamb"]);
}

#[test]
fn split_test_02() {
    let haystack = "";
    let splits: Vec<_> = StrSplit::new(haystack, "X").collect();
    assert_eq!(splits, [""]);
}

#[test]
fn split_test_03() {
    let haystack = "lion::tiger::leopard";
    let splits: Vec<_> = StrSplit::new(haystack, "::").collect();
    assert_eq!(splits, ["lion", "tiger", "leopard"]);
}

#[test]
fn split_test_04() {
    let haystack = "abc1def2ghi";
    let splits: Vec<_> = StrSplit::new(haystack, char::is_numeric).collect();
    assert_eq!(splits, ["abc", "def", "ghi"]);
}

#[test]
fn split_test_05() {
    let haystack = "lionXtigerXleopard";
    let splits: Vec<_> = StrSplit::new(haystack, char::is_uppercase).collect();
    assert_eq!(splits, ["lion", "tiger", "leopard"]);
}

#[test]
fn split_test_06() {
    let haystack = "2020-11-03 23:59";
    let splits: Vec<_> = StrSplit::new(haystack, &['-', ' ', ':', '@'][..]).collect();
    assert_eq!(splits, ["2020", "11", "03", "23", "59"]);
}

#[test]
fn split_test_07() {
    let haystack = "abc1defXghi";
    let splits: Vec<_> = StrSplit::new(haystack, |c| c == '1' || c == 'X').collect();
    assert_eq!(splits, ["abc", "def", "ghi"]);
}

#[test]
fn split_test_08() {
    let haystack = "||||a||b|c";
    let splits: Vec<_> = StrSplit::new(haystack, '|').collect();
    assert_eq!(splits, &["", "", "", "", "a", "", "b", "c"]);
}

#[test]
fn split_test_09() {
    let haystack = "(///)".to_string();
    let splits: Vec<_> = StrSplit::new(&haystack, '/').collect();
    assert_eq!(splits, &["(", "", "", ")"]);
}

#[test]
fn split_test_10() {
    let haystack = "010".to_string();
    let splits: Vec<_> = StrSplit::new(&haystack, "0").collect();
    assert_eq!(splits, &["", "1", ""]);
}

#[test]
fn split_test_11() {
    let haystack = "    a  b c".to_string();
    let splits: Vec<_> = StrSplit::new(&haystack, ' ').collect();
    assert_eq!(splits, &["", "", "", "", "a", "", "b", "c"]);
}

#[test]
fn split_test_12() {
    let haystack = "rust".to_string();
    let splits: Vec<_> = StrSplit::new(&haystack, "").collect();
    assert_eq!(splits, &["", "r", "u", "s", "t", ""]);
}

#[test]
fn no_match_yields_the_whole_haystack() {
    let splits: Vec<_> = StrSplit::new("abc", ',').collect();
    assert_eq!(splits, ["abc"]);
}

#[test]
fn multibyte_chars_are_split_on_char_positions() {
    let splits: Vec<_> = StrSplit::new("héllo wörld", 'é').collect();
    assert_eq!(splits, ["h", "llo wörld"]);
    let splits: Vec<_> = StrSplit::new("añb", "").collect();
    assert_eq!(splits, ["", "a", "ñ", "b", ""]);
    let splits: Vec<_> = StrSplit::new("x→y→z", "→").collect();
    assert_eq!(splits, ["x", "y", "z"]);
}

#[test]
fn empty_char_set_never_matches() {
    let splits: Vec<_> = StrSplit::new("a-b", &[][..]).collect();
    assert_eq!(splits, ["a-b"]);
}

#[test]
fn next_then_collect_gives_the_rest() {
    let mut it = StrSplit::new("a,b,c", ",");
    assert_eq!(it.next(), Some("a"));
    assert_eq!(it.remainder, Some("b,c"));
    let rest: Vec<_> = it.collect();
    assert_eq!(rest, ["b", "c"]);
}

#[test]
fn exhausted_splitter_yields_none() {
    let mut it = StrSplit::new("", "");
    assert_eq!(it.next(), Some(""));
    assert_eq!(it.next(), Some(""));
    assert_eq!(it.next(), None);
    assert_eq!(it.next(), None);
}

#[test]
fn pattern_longer_than_haystack_does_not_match() {
    let splits: Vec<_> = StrSplit::new("ab", "abc").collect();
    assert_eq!(splits, ["ab"]);
}

#[test]
fn predicate_on_multibyte_chars() {
    let splits: Vec<_> = StrSplit::new("aéb€c", |c: char| !c.is_ascii()).collect();
    assert_eq!(splits, ["a", "b", "c"]);
}

#[test]
fn find_next_reports_byte_offsets() {
    assert_eq!("b".find_next("abc"), Some((1, 2)));
    assert_eq!("".find_next("abc"), Some((0, 0)));
    assert_eq!("zz".find_next("abc"), None);
    assert_eq!('ö'.find_next("wörld"), Some((1, 3)));
    assert_eq!((&['x', 'd'][..]).find_next("wörld"), Some((5, 6)));
    assert_eq!((|c: char| c == 'l').find_next("wörld"), Some((4, 5)));
    assert_eq!("b".find_next("éb"), Some((2, 3)));
    assert_eq!('b'.find_next("éb"), Some((2, 3)));
    assert_eq!((&['b'][..]).find_next("éb"), Some((2, 3)));
    assert_eq!("é".find_next("aé"), Some((1, 3)));
    assert_eq!("€x".find_next("a€€x"), Some((4, 8)));
}

#[test]
fn multibyte_delimiters_split_whole_chars() {
    let splits: Vec<_> = StrSplit::new("a€b€€c", "€").collect();
    assert_eq!(splits, ["a", "b", "", "c"]);
    let splits: Vec<_> = StrSplit::new("日本語", &['本'][..]).collect();
    assert_eq!(splits, ["日", "語"]);
}

#[test]
fn char_split_pieces_rejoin_to_the_haystack() {
    for haystack in ["a|b||c", "|x|", "", "no bars", "é|ü|"] {
        let pieces: Vec<_> = StrSplit::new(haystack, '|').collect();
        assert!(pieces.iter().all(|p| !p.contains('|')));
        assert_eq!(pieces.join("|"), haystack);
    }
}

#[test]
fn empty_pattern_yields_each_char_between_empty_pieces() {
    let pieces: Vec<_> = StrSplit::new("ab€", "").collect();
    assert_eq!(pieces, ["", "a", "b", "€", ""]);
    let pieces: Vec<_> = StrSplit::new("", "").collect();
    assert_eq!(pieces, ["", ""]);
}
