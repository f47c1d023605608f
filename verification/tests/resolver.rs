use multirep::boundary::piece;
use multirep::matching::{match_offsets, occurs_at_offset};
use multirep::render::render;
use multirep::resolve::{place, resolve, Occurrence};

fn spans(kept: &[Occurrence]) -> Vec<(usize, usize, String)> {
    kept.iter().map(|o| (o.start, o.len, o.replacement.to_string())).collect()
}

fn ascending_and_disjoint(kept: &[Occurrence], source_len: usize) -> bool {
    kept.iter().all(|o| o.len > 0 && o.start + o.len <= source_len)
        && kept.windows(2).all(|w| w[0].start + w[0].len <= w[1].start)
}

#[test]
fn occurs_at_offset_compares_the_bytes() {
    assert!(occurs_at_offset(b"Hana is cute", b"Hana", 0));
    assert!(occurs_at_offset(b"Hana is cute", b"cute", 8));
    assert!(occurs_at_offset(b"Hana is cute", b"na", 2));
    assert!(!occurs_at_offset(b"Hana is cute", b"na", 1));
    assert!(!occurs_at_offset(b"Hana is cute", b"cute", 9));
    assert!(!occurs_at_offset(b"Hana is cute", b"cute", 12));
    assert!(!occurs_at_offset(b"Hana is cute", b"cute", 13));
    assert!(!occurs_at_offset(b"Hana is cute", b"cute", usize::MAX));
}

#[test]
fn occurs_at_offset_finds_no_empty_pattern() {
    assert!(!occurs_at_offset(b"Hana", b"", 0));
    assert!(!occurs_at_offset(b"Hana", b"", 4));
    assert!(!occurs_at_offset(b"", b"", 0));
}

#[test]
fn match_offsets_are_disjoint_and_leftmost() {
    assert_eq!(match_offsets(b"abababa", b"aba"), vec![0, 4]);
    assert_eq!(match_offsets(b"aaaa", b"aa"), vec![0, 2]);
    assert_eq!(match_offsets(b"aaaaa", b"aa"), vec![0, 2]);
    assert_eq!(match_offsets(b"a-a-a", b"a"), vec![0, 2, 4]);
    assert_eq!(match_offsets(b"Hana is cute", b"cute"), vec![8]);
}

#[test]
fn match_offsets_of_what_does_not_occur() {
    assert_eq!(match_offsets(b"Hana", b"Rica"), Vec::<usize>::new());
    assert_eq!(match_offsets(b"Hana", b"Hanako"), Vec::<usize>::new());
    assert_eq!(match_offsets(b"Hana", b""), Vec::<usize>::new());
    assert_eq!(match_offsets(b"", b"a"), Vec::<usize>::new());
    assert_eq!(match_offsets(b"", b""), Vec::<usize>::new());
}

#[test]
fn match_offsets_agree_with_the_standard_search() {
    let sources = ["", "a", "aaaa", "abababa", "Hana is cute", "héllo wörld héllo", "ééé"];
    let patterns = ["a", "aa", "aba", "na", "é", "éé", "llo", "Hana is cute!"];
    for source in sources {
        for pattern in patterns {
            let expected: Vec<usize> = source.match_indices(pattern).map(|(at, _)| at).collect();
            assert_eq!(match_offsets(source.as_bytes(), pattern.as_bytes()), expected);
        }
    }
}

#[test]
fn resolve_lists_by_start() {
    let kept = resolve("Hana is cute", &[("cute", "kawaii"), ("Hana", "Minami")]);
    assert_eq!(
        spans(&kept),
        vec![(0, 4, "Minami".to_string()), (8, 4, "kawaii".to_string())]
    );
}

#[test]
fn resolve_drops_what_overlaps() {
    let kept = resolve(
        "Bouh Aoi and Hana are kawaii",
        &[("Bouh", "Both"), ("Aoi", "Minami"), ("oi", "io")],
    );
    assert_eq!(
        spans(&kept),
        vec![(0, 4, "Both".to_string()), (5, 3, "Minami".to_string())]
    );
    let kept = resolve("abcd", &[("bc", "X"), ("ab", "Y"), ("cd", "Z"), ("d", "W")]);
    assert_eq!(spans(&kept), vec![(1, 2, "X".to_string()), (3, 1, "W".to_string())]);
}

#[test]
fn resolve_keeps_the_first_of_equal_starts() {
    let kept = resolve("Hanako", &[("Hana", "x"), ("Hanako", "y"), ("H", "z")]);
    assert_eq!(spans(&kept), vec![(0, 4, "x".to_string())]);
}

#[test]
fn resolve_keeps_nothing_without_occurrences() {
    assert!(resolve("Hana is cute", &[]).is_empty());
    assert!(resolve("Hana is cute", &[("Rica", "x"), ("", "y")]).is_empty());
    assert!(resolve("", &[("a", "x")]).is_empty());
}

#[test]
fn resolve_counts_offsets_in_bytes() {
    let kept = resolve("héllo wörld", &[("ö", "oe"), ("llo", "LLO"), ("é", "e")]);
    assert_eq!(
        spans(&kept),
        vec![
            (1, 2, "e".to_string()),
            (3, 3, "LLO".to_string()),
            (8, 2, "oe".to_string())
        ]
    );
}

#[test]
fn resolved_occurrences_are_ascending_and_disjoint() {
    let sources = ["", "aaaa", "abababa", "abcabcabc", "Hana is cute", "ééaéaéé", "xyzzy"];
    let lists: [&[(&str, &str)]; 6] = [
        &[],
        &[("a", "1"), ("aa", "2"), ("aba", "3")],
        &[("aba", "3"), ("aa", "2"), ("a", "1"), ("b", "")],
        &[("bc", "x"), ("ab", "y"), ("ca", "z"), ("abc", "w")],
        &[("éa", "1"), ("éé", "2"), ("é", "3"), ("a", "4")],
        &[("zz", "1"), ("yz", "2"), ("zy", "3"), ("", "4"), ("xyzzy!", "5")],
    ];
    for source in sources {
        for list in lists {
            let kept = resolve(source, list);
            assert!(ascending_and_disjoint(&kept, source.len()));
            for occurrence in &kept {
                assert!(source.is_char_boundary(occurrence.start));
                assert!(source.is_char_boundary(occurrence.start + occurrence.len));
                let found = &source[occurrence.start..occurrence.start + occurrence.len];
                assert!(list
                    .iter()
                    .any(|(pattern, new)| *pattern == found && *new == occurrence.replacement));
            }
        }
    }
}

#[test]
fn place_keeps_what_is_free() {
    let mut kept = Vec::new();
    assert!(place(&mut kept, Occurrence { start: 8, len: 4, replacement: "c" }));
    assert!(place(&mut kept, Occurrence { start: 0, len: 4, replacement: "a" }));
    assert!(place(&mut kept, Occurrence { start: 4, len: 4, replacement: "b" }));
    assert!(place(&mut kept, Occurrence { start: 12, len: 1, replacement: "d" }));
    assert_eq!(
        spans(&kept),
        vec![
            (0, 4, "a".to_string()),
            (4, 4, "b".to_string()),
            (8, 4, "c".to_string()),
            (12, 1, "d".to_string())
        ]
    );
}

#[test]
fn place_drops_what_overlaps() {
    let mut kept = Vec::new();
    assert!(place(&mut kept, Occurrence { start: 4, len: 4, replacement: "kept" }));
    assert!(!place(&mut kept, Occurrence { start: 4, len: 4, replacement: "same" }));
    assert!(!place(&mut kept, Occurrence { start: 4, len: 1, replacement: "head" }));
    assert!(!place(&mut kept, Occurrence { start: 7, len: 1, replacement: "tail" }));
    assert!(!place(&mut kept, Occurrence { start: 5, len: 2, replacement: "inside" }));
    assert!(!place(&mut kept, Occurrence { start: 3, len: 2, replacement: "into" }));
    assert!(!place(&mut kept, Occurrence { start: 7, len: 2, replacement: "out of" }));
    assert!(!place(&mut kept, Occurrence { start: 0, len: 12, replacement: "around" }));
    assert_eq!(kept, vec![Occurrence { start: 4, len: 4, replacement: "kept" }]);
    assert!(place(&mut kept, Occurrence { start: 3, len: 1, replacement: "before" }));
    assert!(place(&mut kept, Occurrence { start: 8, len: usize::MAX - 8, replacement: "behind" }));
    assert_eq!(kept.len(), 3);
}

#[test]
fn render_copies_and_splices() {
    let kept = [
        Occurrence { start: 0, len: 4, replacement: "Minami" },
        Occurrence { start: 8, len: 4, replacement: "kawaii" },
    ];
    assert_eq!(render("Hana is cute", &kept), "Minami is kawaii");
    assert_eq!(render("Hana is cute", &[]), "Hana is cute");
    assert_eq!(render("", &[]), "");
}

#[test]
fn render_with_adjacent_occurrences() {
    let kept = [
        Occurrence { start: 0, len: 1, replacement: "x" },
        Occurrence { start: 1, len: 2, replacement: "" },
        Occurrence { start: 3, len: 1, replacement: "yy" },
    ];
    assert_eq!(render("abcd", &kept), "xyy");
}

#[test]
fn render_of_resolve_is_multi_replace() {
    let source = "Bouh Aoi and Hana are kawaii";
    let list = [("Bouh", "Both"), ("Aoi", "Minami"), ("oi", "io")];
    assert_eq!(
        render(source, &resolve(source, &list)),
        multirep::multi_replace(source, &list)
    );
}

#[test]
fn piece_cuts_at_byte_offsets() {
    assert_eq!(piece("héllo", 0, 3), "hé");
    assert_eq!(piece("héllo", 1, 3), "é");
    assert_eq!(piece("héllo", 3, 6), "llo");
    assert_eq!(piece("héllo", 3, 3), "");
    assert_eq!(piece("héllo", 0, 6), "héllo");
    assert_eq!(piece("", 0, 0), "");
}

#[test]
fn spans_do_not_depend_on_replacements() {
    let source = "Bouh Aoi and Hana are kawaii";
    let one = resolve(source, &[("Bouh", "Both"), ("Aoi", "Minami"), ("oi", "io"), ("a", "")]);
    let other = resolve(source, &[("Bouh", ""), ("Aoi", "oi"), ("oi", "Aoi"), ("a", "Bouh")]);
    let one_spans: Vec<(usize, usize)> = one.iter().map(|o| (o.start, o.len)).collect();
    let other_spans: Vec<(usize, usize)> = other.iter().map(|o| (o.start, o.len)).collect();
    assert_eq!(one_spans, other_spans);
    assert_eq!(one_spans, vec![(0, 4), (5, 3), (9, 1), (14, 1), (16, 1), (18, 1), (23, 1), (25, 1)]);
}

#[test]
fn what_is_kept_for_a_front_of_the_list_stays_kept() {
    let source = "abcabcabc aaa bcbc";
    let list = [("bc", "1"), ("abc", "2"), ("a", "3"), ("c", "4"), ("aa", "5"), (" ", "6")];
    let whole = resolve(source, &list);
    for count in 0..=list.len() {
        let front = resolve(source, &list[..count]);
        for occurrence in &front {
            assert!(whole.contains(occurrence));
        }
    }
}

#[test]
fn no_more_could_be_kept() {
    let source = "abcabcabc aaa bcbc";
    let list = [("bc", "1"), ("abc", "2"), ("a", "3"), ("c", "4"), ("aa", "5"), (" ", "6")];
    let kept = resolve(source, &list);
    for (pattern, _) in list {
        for at in match_offsets(source.as_bytes(), pattern.as_bytes()) {
            assert!(kept
                .iter()
                .any(|o| o.start < at + pattern.len() && at < o.start + o.len));
        }
    }
}

#[test]
fn first_pattern_is_kept_wherever_it_occurs() {
    let source = "abcabcabc aaa bcbc";
    let list = [("bc", "1"), ("abc", "2"), ("a", "3")];
    let kept = resolve(source, &list);
    for at in match_offsets(source.as_bytes(), b"bc") {
        assert!(kept.contains(&Occurrence { start: at, len: 2, replacement: "1" }));
    }
    assert_eq!(multirep::multi_replace(source, &list), "313131 333 11");
}
