use spanned::{resolve_locations, SpanJoining};

/// A location: the file it is in, and the first and last byte it covers.
type Loc = (u32, u32, u32);

const CALL_SITE: Loc = (0, 0, 0);

/// Two locations join when they are in the same file; the result covers both.
fn join(a: Loc, b: Loc) -> Option<Loc> {
    if a.0 == b.0 {
        Some((a.0, a.1.min(b.1), a.2.max(b.2)))
    } else {
        None
    }
}

fn resolve(locs: &[Loc], joining: SpanJoining) -> Loc {
    resolve_locations(&locs.to_vec(), CALL_SITE, joining, join)
}

#[test]
fn no_tokens_give_call_site() {
    assert_eq!(resolve(&[], SpanJoining::Off), CALL_SITE);
    assert_eq!(resolve(&[], SpanJoining::On), CALL_SITE);
}

#[test]
fn one_token_gives_its_location() {
    let l1: Loc = (1, 4, 9);
    assert_eq!(resolve(&[l1], SpanJoining::Off), l1);
    assert_eq!(resolve(&[l1], SpanJoining::On), l1);
}

#[test]
fn joining_off_takes_first_location() {
    let locs: [Loc; 4] = [(1, 10, 12), (1, 2, 3), (2, 40, 50), (1, 20, 30)];
    assert_eq!(resolve(&locs, SpanJoining::Off), (1, 10, 12));
}

#[test]
fn joining_on_joins_all_in_order() {
    let l1: Loc = (1, 0, 3);
    let l2: Loc = (1, 4, 7);
    let l3: Loc = (1, 8, 12);
    let expected = join(join(l1, l2).unwrap(), l3).unwrap();
    assert_eq!(expected, (1, 0, 12));
    assert_eq!(resolve(&[l1, l2, l3], SpanJoining::On), expected);
}

#[test]
fn joining_off_on_joinable_tokens_takes_first() {
    let l1: Loc = (1, 0, 3);
    let l2: Loc = (1, 4, 7);
    let l3: Loc = (1, 8, 12);
    assert_eq!(resolve(&[l1, l2, l3], SpanJoining::Off), l1);
}

#[test]
fn joining_on_skips_incompatible_middle_token() {
    let l1: Loc = (1, 0, 3);
    let l2: Loc = (2, 4, 7);
    let l3: Loc = (1, 8, 12);
    assert_eq!(join(l1, l2), None);
    let expected = join(l1, l3).unwrap();
    assert_eq!(resolve(&[l1, l2, l3], SpanJoining::On), expected);
    assert_eq!(resolve(&[l1, l2, l3], SpanJoining::On), resolve(&[l1, l3], SpanJoining::On));
}

#[test]
fn joining_on_skip_keeps_earlier_and_later_tokens() {
    let locs: [Loc; 5] = [(3, 20, 25), (3, 10, 12), (7, 0, 100), (3, 30, 31), (3, 26, 27)];
    let skipped: [Loc; 4] = [(3, 20, 25), (3, 10, 12), (3, 30, 31), (3, 26, 27)];
    assert_eq!(resolve(&locs, SpanJoining::On), (3, 10, 31));
    assert_eq!(resolve(&skipped, SpanJoining::On), (3, 10, 31));
}

#[test]
fn joining_on_order_does_not_matter_for_commutative_join() {
    let a: Loc = (5, 10, 20);
    let b: Loc = (5, 0, 4);
    let c: Loc = (5, 30, 33);
    let forward = resolve(&[a, b, c], SpanJoining::On);
    let backward = resolve(&[c, b, a], SpanJoining::On);
    let mixed = resolve(&[b, c, a], SpanJoining::On);
    assert_eq!(forward, (5, 0, 33));
    assert_eq!(backward, forward);
    assert_eq!(mixed, forward);
}

#[test]
fn first_token_from_other_file_keeps_only_its_file() {
    let locs: [Loc; 3] = [(9, 1, 2), (1, 0, 50), (9, 5, 6)];
    assert_eq!(resolve(&locs, SpanJoining::On), (9, 1, 6));
}

#[test]
fn resolving_twice_gives_same_location() {
    let locs: [Loc; 3] = [(1, 5, 6), (2, 0, 1), (1, 9, 11)];
    for joining in [SpanJoining::Off, SpanJoining::On] {
        assert_eq!(resolve(&locs, joining), resolve(&locs, joining));
    }
    assert_eq!(resolve(&locs, SpanJoining::On), (1, 5, 11));
}

#[test]
fn join_that_never_succeeds_keeps_first() {
    let locs: Vec<Loc> = vec![(1, 5, 6), (1, 0, 1), (1, 9, 11)];
    let r = resolve_locations(&locs, CALL_SITE, SpanJoining::On, |_a: Loc, _b: Loc| None);
    assert_eq!(r, (1, 5, 6));
}

#[test]
fn default_joining_is_off() {
    assert_eq!(SpanJoining::default(), SpanJoining::Off);
}
