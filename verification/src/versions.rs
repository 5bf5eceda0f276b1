//! Version strings: semantic-version order with a lexicographic fallback, and
//! the severity of a set of versions.

use crate::text::{chars_of, lemma_lex_lt_asymmetric, lemma_lex_lt_total, lex_lt, lt_chars, same_text};
use crate::types::{version_texts, DuplicateSeverity, DuplicateVersion};
use semver::Version;
use vstd::prelude::*;

verus! {

/// How one version stands to another.
#[derive(Debug, Clone, Copy, PartialEq, Eq, Structural)]
pub enum VersionOrder {
    Less,
    Equal,
    Greater,
}

/// The same relation, seen from the other side.
pub open spec fn flipped(o: VersionOrder) -> VersionOrder {
    match o {
        VersionOrder::Less => VersionOrder::Greater,
        VersionOrder::Equal => VersionOrder::Equal,
        VersionOrder::Greater => VersionOrder::Less,
    }
}

/// The outcome of a comparison, seen from the other side.
pub open spec fn flipped_outcome(r: Option<VersionOrder>) -> Option<VersionOrder> {
    match r {
        Some(o) => Some(flipped(o)),
        None => None,
    }
}

/// The major component that `semver` reads from a version string, where the
/// string is a semantic version.
pub uninterp spec fn semver_major(text: Seq<char>) -> Option<u64>;

/// The precedence that `semver` gives two version strings, where both are
/// semantic versions.
pub uninterp spec fn semver_order(a: Seq<char>, b: Seq<char>) -> Option<VersionOrder>;

/// `Version::parse`, reduced to the major component: `None` where the text
/// is no semantic version.
#[verifier::external_body]
pub(crate) fn parse_major(text: &str) -> (r: Option<u64>)
    ensures
        r == semver_major(text@),
{
    match Version::parse(text) {
        Ok(v) => Some(v.major),
        Err(_) => None,
    }
}

/// `Version::parse` on both texts and `Ord::cmp` on the two versions: `None`
/// unless both texts are semantic versions. The order of two versions is the
/// reverse of their order the other way round, as for every `Ord`.
#[verifier::external_body]
pub(crate) fn semver_compare(a: &str, b: &str) -> (r: Option<VersionOrder>)
    ensures
        r == semver_order(a@, b@),
        r.is_some() == (semver_major(a@).is_some() && semver_major(b@).is_some()),
        semver_order(b@, a@) == flipped_outcome(r),
{
    match (Version::parse(a), Version::parse(b)) {
        (Ok(x), Ok(y)) => Some(
            match x.cmp(&y) {
                std::cmp::Ordering::Less => VersionOrder::Less,
                std::cmp::Ordering::Equal => VersionOrder::Equal,
                std::cmp::Ordering::Greater => VersionOrder::Greater,
            },
        ),
        _ => None,
    }
}

/// The lexicographic order of two texts.
pub open spec fn lex_order(a: Seq<char>, b: Seq<char>) -> VersionOrder {
    if lex_lt(a, b) {
        VersionOrder::Less
    } else if a == b {
        VersionOrder::Equal
    } else {
        VersionOrder::Greater
    }
}

/// The order of two version strings, given the semantic-version order of the
/// two where both have one: that order, else the lexicographic order.
pub open spec fn order_with_fallback(parsed: Option<VersionOrder>, a: Seq<char>, b: Seq<char>) -> VersionOrder {
    match parsed {
        Some(o) => o,
        None => lex_order(a, b),
    }
}

/// The order of two version strings: by semantic version where both are
/// semantic versions, else lexicographic.
pub open spec fn version_order(a: Seq<char>, b: Seq<char>) -> VersionOrder {
    order_with_fallback(semver_order(a, b), a, b)
}

/// The lexicographic order of two strings.
pub fn compare_text(a: &str, b: &str) -> (r: VersionOrder)
    ensures
        r == lex_order(a@, b@),
{
    let x = chars_of(a);
    let y = chars_of(b);
    if lt_chars(&x, &y) {
        VersionOrder::Less
    } else if same_text(a, b) {
        VersionOrder::Equal
    } else {
        VersionOrder::Greater
    }
}

/// Settles the order of `a` and `b` from the outcome of comparing them as
/// semantic versions.
pub fn resolve_order(parsed: Option<VersionOrder>, a: &str, b: &str) -> (r: VersionOrder)
    ensures
        r == order_with_fallback(parsed, a@, b@),
{
    match parsed {
        Some(o) => o,
        None => compare_text(a, b),
    }
}

/// Compare two version strings, handling semver and non-semver
pub fn compare_versions(a: &str, b: &str) -> (r: VersionOrder)
    ensures
        r == version_order(a@, b@),
        version_order(b@, a@) == flipped(r),
{
    let parsed = semver_compare(a, b);
    proof {
        if parsed is None {
            if lex_lt(a@, b@) {
                lemma_lex_lt_asymmetric(a@, b@);
            } else if a@ != b@ {
                lemma_lex_lt_total(a@, b@);
            } else {
                if lex_lt(b@, a@) {
                    lemma_lex_lt_asymmetric(b@, a@);
                }
            }
        }
    }
    resolve_order(parsed, a, b)
}

/// Two of the versions are semantic versions with different major components.
pub open spec fn differing_majors(majors: Seq<Option<u64>>) -> bool {
    exists|i: int, j: int|
        0 <= i < majors.len() && 0 <= j < majors.len() && (#[trigger] majors[i]) is Some && (
        #[trigger] majors[j]) is Some && majors[i] != majors[j]
}

/// The tier of a group of one or two versions, by the major components of
/// those that are semantic versions: low where none is or all agree, else
/// medium.
pub open spec fn severity_of_majors(majors: Seq<Option<u64>>) -> DuplicateSeverity {
    if differing_majors(majors) {
        DuplicateSeverity::Medium
    } else {
        DuplicateSeverity::Low
    }
}

/// The tier of a group with `count` versions whose major components are
/// `majors`: high from three versions on.
pub open spec fn severity_for(count: nat, majors: Seq<Option<u64>>) -> DuplicateSeverity {
    if count >= 3 {
        DuplicateSeverity::High
    } else {
        severity_of_majors(majors)
    }
}

/// The major components of a list of version strings.
pub open spec fn majors_of(versions: Seq<Seq<char>>) -> Seq<Option<u64>> {
    Seq::new(versions.len(), |i: int| semver_major(versions[i]))
}

/// The tier of a group with these version strings.
pub open spec fn severity_of(versions: Seq<Seq<char>>) -> DuplicateSeverity {
    severity_for(versions.len(), majors_of(versions))
}

/// The tier of a group with `count` versions, given the major component of
/// each version that is a semantic version.
pub fn severity_from_majors(count: usize, majors: &Vec<Option<u64>>) -> (r: DuplicateSeverity)
    ensures
        r == severity_for(count as nat, majors@),
{
    if count >= 3 {
        return DuplicateSeverity::High;
    }
    let mut first: Option<u64> = None;
    let mut i: usize = 0;
    while i < majors.len()
        invariant
            count < 3,
            i <= majors@.len(),
            first is None ==> forall|k: int| 0 <= k < i ==> majors@[k] is None,
            first is Some ==> exists|k: int| 0 <= k < i && majors@[k] == first,
            forall|k: int| 0 <= k < i && majors@[k] is Some ==> majors@[k] == first,
        decreases majors@.len() - i,
    {
        match majors[i] {
            Some(m) => {
                match first {
                    Some(f) => {
                        if f != m {
                            let ghost k = choose|k: int| 0 <= k < i && majors@[k] == first;
                            assert(0 <= k < majors@.len() && 0 <= i < majors@.len() && majors@[k] is Some
                                && majors@[i as int] is Some && majors@[k] != majors@[i as int]);
                            assert(differing_majors(majors@));
                            return DuplicateSeverity::Medium;
                        }
                    },
                    None => {
                        first = Some(m);
                    },
                }
            },
            None => {},
        }
        i += 1;
    }
    DuplicateSeverity::Low
}

/// Calculate severity based on version differences
pub fn calculate_severity(versions: &Vec<DuplicateVersion>) -> (r: DuplicateSeverity)
    ensures
        r == severity_of(version_texts(versions@)),
        versions@.len() >= 3 ==> r == DuplicateSeverity::High,
{
    let mut majors: Vec<Option<u64>> = Vec::new();
    let mut i: usize = 0;
    while i < versions.len()
        invariant
            i <= versions@.len(),
            majors@.len() == i,
            forall|k: int| 0 <= k < i ==> majors@[k] == semver_major(versions@[k].version@),
        decreases versions@.len() - i,
    {
        majors.push(parse_major(versions[i].version.as_str()));
        i += 1;
    }
    assert(majors@ =~= majors_of(version_texts(versions@)));
    severity_from_majors(versions.len(), &majors)
}

} // verus!
