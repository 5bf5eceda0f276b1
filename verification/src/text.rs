//! Text helpers: characters of a string, lexicographic order, lookup of a
//! name in a list, prefixes and separators.

use vstd::prelude::*;
use vstd::string::*;

verus! {

/// The texts held by a list of strings.
pub open spec fn texts(list: Seq<String>) -> Seq<Seq<char>> {
    Seq::new(list.len(), |i: int| list[i]@)
}

/// The texts held by a list of character vectors.
pub open spec fn char_rows(list: Seq<Vec<char>>) -> Seq<Seq<char>> {
    Seq::new(list.len(), |i: int| list[i]@)
}

/// Strict lexicographic order by code point, the order of `str`.
pub open spec fn lex_lt(a: Seq<char>, b: Seq<char>) -> bool
    decreases a.len(),
{
    if b.len() == 0 {
        false
    } else if a.len() == 0 {
        true
    } else if a[0] == b[0] {
        lex_lt(a.drop_first(), b.drop_first())
    } else {
        (a[0] as int) < (b[0] as int)
    }
}

pub proof fn lemma_lex_lt_transitive(a: Seq<char>, b: Seq<char>, c: Seq<char>)
    requires
        lex_lt(a, b),
        lex_lt(b, c),
    ensures
        lex_lt(a, c),
    decreases a.len(),
{
    if a.len() > 0 && b.len() > 0 && c.len() > 0 && a[0] == b[0] && b[0] == c[0] {
        lemma_lex_lt_transitive(a.drop_first(), b.drop_first(), c.drop_first());
    }
}

pub proof fn lemma_lex_lt_asymmetric(a: Seq<char>, b: Seq<char>)
    requires
        lex_lt(a, b),
    ensures
        !lex_lt(b, a),
        a != b,
    decreases a.len(),
{
    if a.len() > 0 && b.len() > 0 && a[0] == b[0] {
        lemma_lex_lt_asymmetric(a.drop_first(), b.drop_first());
    }
}

pub proof fn lemma_lex_lt_total(a: Seq<char>, b: Seq<char>)
    requires
        a != b,
    ensures
        lex_lt(a, b) || lex_lt(b, a),
    decreases a.len(),
{
    if a.len() == 0 || b.len() == 0 {
        if a.len() == 0 && b.len() == 0 {
            assert(a =~= b);
        }
    } else if a[0] == b[0] {
        if a.drop_first() == b.drop_first() {
            assert(a =~= seq![a[0]] + a.drop_first());
            assert(b =~= seq![b[0]] + b.drop_first());
        }
        lemma_lex_lt_total(a.drop_first(), b.drop_first());
    } else {
        assert(a[0] as int != b[0] as int);
    }
}

/// `i` is the first place at which `list` holds `s`.
pub open spec fn is_first_at(list: Seq<Seq<char>>, s: Seq<char>, i: int) -> bool {
    &&& 0 <= i < list.len()
    &&& list[i] == s
    &&& forall|j: int| 0 <= j < i ==> list[j] != s
}

/// The first place at which `list` holds `s`, if any.
pub open spec fn lookup(list: Seq<Seq<char>>, s: Seq<char>) -> Option<int> {
    if exists|i: int| is_first_at(list, s, i) {
        Some(choose|i: int| is_first_at(list, s, i))
    } else {
        None
    }
}

pub proof fn lemma_lookup_found(list: Seq<Seq<char>>, s: Seq<char>, i: int)
    requires
        is_first_at(list, s, i),
    ensures
        lookup(list, s) == Some(i),
{
    let j = choose|j: int| is_first_at(list, s, j);
    if j < i {
        assert(list[j] != s);
    } else if i < j {
        assert(list[i] != s);
    }
}

pub proof fn lemma_lookup_none(list: Seq<Seq<char>>, s: Seq<char>)
    requires
        forall|j: int| 0 <= j < list.len() ==> list[j] != s,
    ensures
        lookup(list, s) is None,
{
}

/// What `lookup` finds is a place that holds `s`; it finds nothing only where
/// no place holds `s`.
pub proof fn lemma_lookup_sound(list: Seq<Seq<char>>, s: Seq<char>)
    ensures
        match lookup(list, s) {
            Some(i) => is_first_at(list, s, i),
            None => forall|j: int| 0 <= j < list.len() ==> list[j] != s,
        },
{
    if lookup(list, s) is None {
        assert forall|j: int| 0 <= j < list.len() implies list[j] != s by {
            if list[j] == s {
                lemma_some_first(list, s, j);
            }
        }
    }
}

proof fn lemma_some_first(list: Seq<Seq<char>>, s: Seq<char>, j: int)
    requires
        0 <= j < list.len(),
        list[j] == s,
    ensures
        exists|i: int| is_first_at(list, s, i),
    decreases j,
{
    if forall|k: int| 0 <= k < j ==> list[k] != s {
        assert(is_first_at(list, s, j));
    } else {
        let k = choose|k: int| 0 <= k < j && list[k] == s;
        lemma_some_first(list, s, k);
    }
}

/// No text occurs twice in `list`.
pub open spec fn distinct(list: Seq<Seq<char>>) -> bool {
    forall|i: int, j: int| 0 <= i < j < list.len() ==> list[i] != list[j]
}

/// `list` ascends strictly in lexicographic order.
pub open spec fn ascending(list: Seq<Seq<char>>) -> bool {
    forall|i: int, j: int| 0 <= i < j < list.len() ==> lex_lt(list[i], list[j])
}

/// The characters of a string.
pub fn chars_of(s: &str) -> (v: Vec<char>)
    ensures
        v@ == s@,
{
    let n = s.unicode_len();
    let mut v: Vec<char> = Vec::new();
    let mut i: usize = 0;
    while i < n
        invariant
            n == s@.len(),
            i <= n,
            v@ == s@.subrange(0, i as int),
        decreases n - i,
    {
        v.push(s.get_char(i));
        assert(v@ =~= s@.subrange(0, i + 1));
        i += 1;
    }
    assert(v@ =~= s@);
    v
}

/// Whether two strings hold the same text.
pub fn same_text(a: &str, b: &str) -> (r: bool)
    ensures
        r == (a@ == b@),
{
    let x = String::from_str(a);
    let y = String::from_str(b);
    x == y
}

/// Whether `a` comes strictly before `b` in lexicographic order.
pub fn lt_chars(a: &Vec<char>, b: &Vec<char>) -> (r: bool)
    ensures
        r == lex_lt(a@, b@),
{
    let mut i: usize = 0;
    assert(a@.skip(0) =~= a@ && b@.skip(0) =~= b@);
    while i < a.len() && i < b.len()
        invariant
            i <= a@.len(),
            i <= b@.len(),
            lex_lt(a@, b@) == lex_lt(a@.skip(i as int), b@.skip(i as int)),
        decreases a@.len() - i,
    {
        let x = a[i];
        let y = b[i];
        assert(a@.skip(i as int)[0] == x);
        assert(b@.skip(i as int)[0] == y);
        assert(a@.skip(i as int).len() > 0 && b@.skip(i as int).len() > 0);
        if x != y {
            return x < y;
        }
        assert(a@.skip(i as int).drop_first() =~= a@.skip(i + 1));
        assert(b@.skip(i as int).drop_first() =~= b@.skip(i + 1));
        i += 1;
    }
    assert(a@.skip(i as int).len() == a@.len() - i && b@.skip(i as int).len() == b@.len() - i);
    i < b.len()
}

/// Whether `s` begins with `prefix`.
pub fn has_prefix(s: &Vec<char>, prefix: &Vec<char>) -> (r: bool)
    ensures
        r == prefix@.is_prefix_of(s@),
{
    if prefix.len() > s.len() {
        return false;
    }
    let mut i: usize = 0;
    while i < prefix.len()
        invariant
            prefix@.len() <= s@.len(),
            i <= prefix@.len(),
            forall|k: int| 0 <= k < i ==> s@[k] == prefix@[k],
        decreases prefix@.len() - i,
    {
        if s[i] != prefix[i] {
            assert(s@.subrange(0, prefix@.len() as int)[i as int] != prefix@[i as int]);
            return false;
        }
        i += 1;
    }
    assert(s@.subrange(0, prefix@.len() as int) =~= prefix@);
    true
}

/// The first place at which `list` holds the text of `s`, if any.
pub fn find_text(list: &Vec<String>, s: &str) -> (r: Option<usize>)
    ensures
        match r {
            Some(i) => lookup(texts(list@), s@) == Some(i as int) && i < list@.len(),
            None => lookup(texts(list@), s@) is None,
        },
{
    let mut i: usize = 0;
    while i < list.len()
        invariant
            i <= list@.len(),
            forall|j: int| 0 <= j < i ==> texts(list@)[j] != s@,
        decreases list@.len() - i,
    {
        if same_text(list[i].as_str(), s) {
            proof {
                lemma_lookup_found(texts(list@), s@, i as int);
            }
            return Some(i);
        }
        i += 1;
    }
    proof {
        lemma_lookup_none(texts(list@), s@);
    }
    None
}

/// A copy of a list of strings.
pub fn copy_texts(list: &Vec<String>) -> (r: Vec<String>)
    ensures
        texts(r@) == texts(list@),
        r@.len() == list@.len(),
{
    let mut r: Vec<String> = Vec::new();
    let mut i: usize = 0;
    while i < list.len()
        invariant
            i <= list@.len(),
            r@.len() == i,
            forall|k: int| 0 <= k < i ==> r@[k]@ == list@[k]@,
        decreases list@.len() - i,
    {
        r.push(list[i].clone());
        i += 1;
    }
    assert(texts(r@) =~= texts(list@));
    r
}

/// A copy of an optional string.
pub fn copy_note(note: &Option<String>) -> (r: Option<String>)
    ensures
        note_text(r) == note_text(*note),
{
    match note {
        Some(s) => Some(s.clone()),
        None => None,
    }
}

/// The text of an optional string.
pub open spec fn note_text(note: Option<String>) -> Option<Seq<char>> {
    match note {
        Some(s) => Some(s@),
        None => None,
    }
}

/// Whether the text `s` begins with `prefix`.
pub fn starts_with(s: &Vec<char>, prefix: &str) -> (r: bool)
    ensures
        r == prefix@.is_prefix_of(s@),
{
    let p = chars_of(prefix);
    has_prefix(s, &p)
}

/// `order` lists every place of `keys` once, so that the keys ascend.
pub open spec fn is_sorted_order(order: Seq<usize>, keys: Seq<Seq<char>>) -> bool {
    &&& order.len() == keys.len()
    &&& forall|m: int| 0 <= m < order.len() ==> (#[trigger] order[m]) < keys.len()
    &&& forall|k: usize| k < keys.len() ==> #[trigger] order.contains(k)
    &&& forall|a: int, b: int|
        0 <= a < b < order.len() ==> lex_lt(
            #[trigger] keys[order[a] as int],
            #[trigger] keys[order[b] as int],
        )
}

/// The places of `keys` in ascending order of their keys, by insertion.
pub(crate) fn sorted_order(keys: &Vec<Vec<char>>) -> (order: Vec<usize>)
    requires
        distinct(char_rows(keys@)),
    ensures
        is_sorted_order(order@, char_rows(keys@)),
{
    let ghost ks = char_rows(keys@);
    let mut order: Vec<usize> = Vec::new();
    let mut i: usize = 0;
    while i < keys.len()
        invariant
            i <= keys@.len(),
            ks == char_rows(keys@),
            distinct(ks),
            order@.len() == i,
            forall|m: int| 0 <= m < order@.len() ==> (#[trigger] order@[m]) < i,
            forall|k: usize| k < i ==> #[trigger] order@.contains(k),
            forall|a: int, b: int|
                0 <= a < b < order@.len() ==> lex_lt(
                    #[trigger] ks[order@[a] as int],
                    #[trigger] ks[order@[b] as int],
                ),
        decreases keys@.len() - i,
    {
        let mut pos: usize = 0;
        while pos < order.len() && !lt_chars(&keys[i], &keys[order[pos]])
            invariant
                i < keys@.len(),
                ks == char_rows(keys@),
                pos <= order@.len(),
                order@.len() == i,
                forall|m: int| 0 <= m < order@.len() ==> (#[trigger] order@[m]) < i,
                forall|m: int| 0 <= m < pos ==> !lex_lt(ks[i as int], #[trigger] ks[order@[m] as int]),
            decreases order@.len() - pos,
        {
            pos += 1;
        }
        let ghost old_order = order@;
        order.insert(pos, i);
        proof {
            let now = order@;
            assert(now.len() == old_order.len() + 1);
            assert forall|m: int| 0 <= m < now.len() implies now[m] == (if m < pos {
                old_order[m]
            } else if m == pos {
                i
            } else {
                old_order[m - 1]
            }) by {}
            assert forall|k: usize| k < i + 1 implies #[trigger] now.contains(k) by {
                if k < i {
                    assert(old_order.contains(k));
                    let w = choose|w: int| 0 <= w < old_order.len() && old_order[w] == k;
                    if w < pos {
                        assert(now[w] == k);
                    } else {
                        assert(now[w + 1] == k);
                    }
                } else {
                    assert(now[pos as int] == i);
                }
            }
            assert forall|a: int, b: int| 0 <= a < b < now.len() implies lex_lt(
                #[trigger] ks[now[a] as int],
                #[trigger] ks[now[b] as int],
            ) by {
                let ka = ks[now[a] as int];
                let kb = ks[now[b] as int];
                let ki = ks[i as int];
                if b < pos {
                } else if b == pos {
                    // an earlier key does not follow the new one, and differs from it
                    assert(!lex_lt(ki, ks[old_order[a] as int]));
                    assert(old_order[a] != i);
                    lemma_lex_lt_total(ka, ki);
                } else if a == pos {
                    let first = ks[old_order[pos as int] as int];
                    assert(lex_lt(ki, first));
                    if b - 1 > pos {
                        assert(lex_lt(first, ks[old_order[b - 1] as int]));
                        lemma_lex_lt_transitive(ki, first, kb);
                    }
                } else if a < pos {
                    assert(lex_lt(ks[old_order[a] as int], ks[old_order[b - 1] as int]));
                } else {
                    assert(lex_lt(ks[old_order[a - 1] as int], ks[old_order[b - 1] as int]));
                }
            }
        }
        i += 1;
    }
    order
}

/// The first place from `from` on at which `s` holds `c`, or the end of `s`.
pub open spec fn find_char(s: Seq<char>, c: char, from: int) -> int
    decreases s.len() - from,
{
    if 0 <= from < s.len() && s[from] != c {
        find_char(s, c, from + 1)
    } else {
        from
    }
}

/// The first place from `from` on at which `s` holds `c`, or the end of `s`.
pub fn seek_char(s: &Vec<char>, c: char, from: usize) -> (at: usize)
    requires
        from <= s@.len(),
    ensures
        at == find_char(s@, c, from as int),
        from <= at <= s@.len(),
{
    let mut i = from;
    while i < s.len() && s[i] != c
        invariant
            from <= i <= s@.len(),
            find_char(s@, c, from as int) == find_char(s@, c, i as int),
        decreases s@.len() - i,
    {
        i += 1;
    }
    i
}

/// Whether `s` holds `pat` at place `i`.
pub open spec fn matches_at(s: Seq<char>, pat: Seq<char>, i: int) -> bool {
    0 <= i && i + pat.len() <= s.len() && s.subrange(i, i + pat.len()) == pat
}

/// Whether `s` holds `pat` at place `i`.
pub fn holds_at(s: &Vec<char>, pat: &Vec<char>, i: usize) -> (r: bool)
    ensures
        r == matches_at(s@, pat@, i as int),
{
    if pat.len() > s.len() || i > s.len() - pat.len() {
        return false;
    }
    let mut k: usize = 0;
    while k < pat.len()
        invariant
            i + pat@.len() <= s@.len(),
            s@.len() <= usize::MAX,
            k <= pat@.len(),
            forall|j: int| 0 <= j < k ==> s@[i + j] == pat@[j],
        decreases pat@.len() - k,
    {
        if s[i + k] != pat[k] {
            assert(s@.subrange(i as int, i + pat@.len())[k as int] != pat@[k as int]);
            return false;
        }
        k += 1;
    }
    assert(s@.subrange(i as int, i + pat@.len()) =~= pat@);
    true
}

/// The last place not above `i` at which `s` holds `pat`, or -1.
pub open spec fn last_match(s: Seq<char>, pat: Seq<char>, i: int) -> int
    decreases i + 1,
{
    if i < 0 {
        -1
    } else if matches_at(s, pat, i) {
        i
    } else {
        last_match(s, pat, i - 1)
    }
}

/// What `last_match` finds is a place at which `s` holds `pat`.
pub proof fn lemma_last_match_matches(s: Seq<char>, pat: Seq<char>, i: int)
    ensures
        last_match(s, pat, i) >= 0 ==> matches_at(s, pat, last_match(s, pat, i)),
    decreases i + 1,
{
    if i >= 0 && !matches_at(s, pat, i) {
        lemma_last_match_matches(s, pat, i - 1);
    }
}

/// The last place at which `s` holds `pat`, if any.
pub fn seek_last(s: &Vec<char>, pat: &Vec<char>) -> (r: Option<usize>)
    ensures
        match r {
            Some(i) => last_match(s@, pat@, s@.len() as int) == i,
            None => last_match(s@, pat@, s@.len() as int) == -1,
        },
{
    let mut i: usize = s.len();
    loop
        invariant
            i <= s@.len(),
            last_match(s@, pat@, s@.len() as int) == last_match(s@, pat@, i as int),
        decreases i,
    {
        if holds_at(s, pat, i) {
            return Some(i);
        }
        if i == 0 {
            assert(last_match(s@, pat@, -1) == -1);
            return None;
        }
        i -= 1;
    }
}

/// Whether `s` holds `pat` somewhere.
pub open spec fn includes(s: Seq<char>, pat: Seq<char>) -> bool {
    last_match(s, pat, s.len() as int) >= 0
}

/// Whether `s` holds the text of `pat` somewhere.
pub fn includes_text(s: &Vec<char>, pat: &str) -> (r: bool)
    ensures
        r == includes(s@, pat@),
{
    let p = chars_of(pat);
    seek_last(s, &p).is_some()
}

} // verus!
