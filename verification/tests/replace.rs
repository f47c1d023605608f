use multirep::multi_replace;

#[test]
fn replace() {
    let s = "Hana is cute";

    let r = multi_replace(s, &[("Hana", "Minami"), ("cute", "kawaii")]);
    assert_eq!(r, "Minami is kawaii");
}

#[test]
fn not_match() {
    assert_eq!(
        "Hana is kawaii",
        multi_replace("Hana is cute", &[("Rica", "Minami"), ("cute", "kawaii")])
    )
}

#[test]
fn remain() {
    assert_eq!(
        "Hana is kawaii",
        multi_replace("Minami is kawaii", &[("Minami", "Hana")])
    )
}

#[test]
fn empty_list_leaves_the_source() {
    assert_eq!(multi_replace("Hana is cute", &[]), "Hana is cute");
    assert_eq!(multi_replace("", &[]), "");
    assert_eq!(multi_replace("日本語 ✓", &[]), "日本語 ✓");
}

#[test]
fn empty_source_stays_empty() {
    assert_eq!(multi_replace("", &[("Hana", "Minami"), ("", "x")]), "");
}

#[test]
fn no_pattern_occurs() {
    assert_eq!(
        multi_replace("Hana is cute", &[("Rica", "Minami"), ("hana", "x"), ("cutest", "y")]),
        "Hana is cute"
    );
}

#[test]
fn matching_is_case_sensitive() {
    assert_eq!(multi_replace("Hana hana HANA", &[("hana", "x")]), "Hana x HANA");
}

#[test]
fn empty_pattern_never_matches() {
    assert_eq!(multi_replace("abc", &[("", "x")]), "abc");
    assert_eq!(multi_replace("abc", &[("", "x"), ("b", "y")]), "ayc");
}

#[test]
fn earlier_pattern_wins() {
    assert_eq!(
        "Minami is kawaii",
        multi_replace(
            "Hana is cute",
            &[("Hana", "Minami"), ("cute", "kawaii"), ("na", "no")]
        )
    );
}

#[test]
fn earlier_pattern_wins_whatever_its_place_in_the_source() {
    assert_eq!(multi_replace("Hana", &[("na", "no"), ("Hana", "Minami")]), "Hano");
    assert_eq!(multi_replace("abcd", &[("bc", "X"), ("ab", "Y"), ("cd", "Z")]), "aXd");
}

#[test]
fn replacement_is_not_searched() {
    assert_eq!(
        "Minami is kawaii",
        multi_replace(
            "Hana is cute",
            &[("Hana", "Minami"), ("cute", "kawaii"), ("kawaii", "hot")]
        )
    );
    assert_eq!(multi_replace("ab", &[("a", "b"), ("b", "a")]), "ba");
    assert_eq!(multi_replace("a", &[("a", "aa"), ("aa", "x")]), "aa");
}

#[test]
fn overlap_with_a_kept_occurrence_is_dropped() {
    assert_eq!(
        "Both Minami and Hana are kawaii",
        multi_replace(
            "Bouh Aoi and Hana are kawaii",
            &[("Bouh", "Both"), ("Aoi", "Minami"), ("oi", "io")]
        )
    );
}

#[test]
fn later_pattern_before_a_kept_occurrence_is_kept() {
    assert_eq!(multi_replace("abcd", &[("cd", "X"), ("ab", "Y")]), "YX");
    assert_eq!(
        multi_replace("Hana is cute", &[("cute", "kawaii"), ("Hana", "Minami")]),
        "Minami is kawaii"
    );
}

#[test]
fn occurrences_of_one_pattern_do_not_overlap() {
    assert_eq!(multi_replace("aaaa", &[("aa", "b")]), "bb");
    assert_eq!(multi_replace("aaa", &[("aa", "b")]), "ba");
    assert_eq!(multi_replace("abababa", &[("aba", "x")]), "xbx");
}

#[test]
fn every_occurrence_is_replaced() {
    assert_eq!(multi_replace("a-a-a", &[("a", "bb")]), "bb-bb-bb");
    assert_eq!(multi_replace("a-a-a", &[("a", "")]), "--");
    assert_eq!(multi_replace("aaa", &[("a", "a")]), "aaa");
}

#[test]
fn whole_source_is_one_occurrence() {
    assert_eq!(multi_replace("Hana", &[("Hana", "")]), "");
    assert_eq!(multi_replace("Hana", &[("Hana", "Minami")]), "Minami");
    assert_eq!(multi_replace("Han", &[("Hana", "Minami")]), "Han");
}

#[test]
fn same_pattern_twice_in_the_list() {
    assert_eq!(multi_replace("a b", &[("a", "x"), ("a", "y")]), "x b");
}

#[test]
fn characters_of_several_bytes() {
    assert_eq!(
        multi_replace("花は可愛い", &[("花", "南"), ("可愛い", "かわいい")]),
        "南はかわいい"
    );
    assert_eq!(multi_replace("héllo wörld", &[("ö", "oe"), ("é", "e")]), "hello woerld");
    assert_eq!(multi_replace("a😀b😀c", &[("😀", "")]), "abc");
    assert_eq!(multi_replace("abc", &[("b", "😀é")]), "a😀éc");
    assert_eq!(multi_replace("ééé", &[("éé", "e"), ("é", "x")]), "ex");
}
