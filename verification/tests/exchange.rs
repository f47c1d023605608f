use multirep::exchange;

#[test]
fn exchange_swaps_both_ways() {
    assert_eq!(exchange("Hana and Minami", "Hana", "Minami"), "Minami and Hana");
    assert_eq!(exchange("a b a b", "a", "b"), "b a b a");
}

#[test]
fn exchange_with_one_pattern_inside_the_other() {
    assert_eq!(
        exchange("Both Hina and Hinata are kawaii", "Hina", "Hinata"),
        "Both Hinata and Hina are kawaii"
    );
    assert_eq!(exchange("na Hana", "na", "Hana"), "Hana na");
}

#[test]
fn exchange_is_symmetric_where_lengths_differ() {
    let s = "Both Hina and Hinata are kawaii";
    assert_eq!(exchange(s, "Hina", "Hinata"), exchange(s, "Hinata", "Hina"));
    assert_eq!(exchange("na Hana", "na", "Hana"), exchange("na Hana", "Hana", "na"));
}

#[test]
fn exchange_is_symmetric_where_occurrences_are_apart() {
    assert_eq!(exchange("ab-ba-ab", "ab", "ba"), "ba-ab-ba");
    assert_eq!(exchange("ab-ba-ab", "ba", "ab"), "ba-ab-ba");
}

#[test]
fn exchange_of_equal_lengths_searches_the_second_first() {
    assert_eq!(exchange("aba", "ab", "ba"), "aab");
    assert_eq!(exchange("aba", "ba", "ab"), "baa");
}

#[test]
fn exchange_twice_gives_the_source_back() {
    let s = "Both Hina and Hinata are kawaii";
    let once = exchange(s, "Hina", "Hinata");
    assert_eq!(exchange(&once, "Hina", "Hinata"), s);
    let swapped = exchange("a b a b", "a", "b");
    assert_eq!(exchange(&swapped, "a", "b"), "a b a b");
}

#[test]
fn exchange_of_a_pattern_with_itself_changes_nothing() {
    assert_eq!(exchange("Hana is cute", "Hana", "Hana"), "Hana is cute");
    assert_eq!(exchange("aaa", "aa", "aa"), "aaa");
}

#[test]
fn exchange_with_an_empty_pattern_removes_the_other() {
    assert_eq!(exchange("a-b", "a", ""), "-b");
    assert_eq!(exchange("a-b", "", "a"), "-b");
    assert_eq!(exchange("a-b", "", ""), "a-b");
}

#[test]
fn exchange_where_neither_occurs() {
    assert_eq!(exchange("Hana is cute", "Rica", "Minami"), "Hana is cute");
    assert_eq!(exchange("", "a", "b"), "");
}

#[test]
fn exchange_counts_length_in_bytes() {
    // "éé" has four bytes and "éa" three, so "éé" is searched first.
    assert_eq!(exchange("ééa", "éé", "éa"), "éaa");
    assert_eq!(exchange("ééa", "éa", "éé"), "éaa");
    assert_eq!(exchange("花と南", "花", "南"), "南と花");
}
