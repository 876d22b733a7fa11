//! The lexical order of texts.
use vstd::prelude::*;

use crate::strings;
use crate::strings::chars_of;

verus! {

/// Whether `a` stands before `b` in lexical order, compared from `i` on.
pub open spec fn before_from(a: Seq<char>, b: Seq<char>, i: int) -> bool
    decreases a.len() - i,
{
    if i < 0 || i >= b.len() {
        false
    } else if i >= a.len() {
        true
    } else if a[i] == b[i] {
        before_from(a, b, i + 1)
    } else {
        a[i] < b[i]
    }
}

/// Whether `a` stands before `b` in lexical order.
pub open spec fn is_before(a: Seq<char>, b: Seq<char>) -> bool {
    before_from(a, b, 0)
}

/// Every text stands before the next one.
pub open spec fn is_sorted(texts: Seq<Seq<char>>) -> bool {
    forall|i: int, j: int| 0 <= i < j < texts.len() ==> is_before(#[trigger] texts[i], #[trigger] texts[j])
}

proof fn lemma_before_irreflexive_from(a: Seq<char>, i: int)
    ensures
        !before_from(a, a, i),
    decreases a.len() - i,
{
    if 0 <= i < a.len() {
        lemma_before_irreflexive_from(a, i + 1);
    }
}

proof fn lemma_before_transitive_from(a: Seq<char>, b: Seq<char>, c: Seq<char>, i: int)
    requires
        before_from(a, b, i),
        before_from(b, c, i),
    ensures
        before_from(a, c, i),
    decreases a.len() - i,
{
    if 0 <= i < c.len() && i < a.len() && i < b.len() && a[i] == b[i] && b[i] == c[i] {
        lemma_before_transitive_from(a, b, c, i + 1);
    }
}

proof fn lemma_before_total_from(a: Seq<char>, b: Seq<char>, i: int)
    requires
        0 <= i <= a.len(),
        i <= b.len(),
        a.take(i) == b.take(i),
        !before_from(a, b, i),
        !before_from(b, a, i),
    ensures
        a == b,
    decreases a.len() - i,
{
    if i < a.len() && i < b.len() {
        assert(a.take(i + 1) =~= a.take(i).push(a[i]));
        assert(b.take(i + 1) =~= b.take(i).push(b[i]));
        lemma_before_total_from(a, b, i + 1);
    } else {
        assert(a.take(i) =~= a);
        assert(b.take(i) =~= b);
    }
}

/// The lexical order is a strict total order.
pub proof fn lemma_order(a: Seq<char>, b: Seq<char>, c: Seq<char>)
    ensures
        !is_before(a, a),
        is_before(a, b) && is_before(b, c) ==> is_before(a, c),
        !is_before(a, b) && !is_before(b, a) ==> a == b,
        is_before(a, b) ==> !is_before(b, a),
{
    lemma_before_irreflexive_from(a, 0);
    if is_before(a, b) && is_before(b, c) {
        lemma_before_transitive_from(a, b, c, 0);
    }
    if is_before(a, b) && is_before(b, a) {
        lemma_before_transitive_from(a, b, a, 0);
    }
    if !is_before(a, b) && !is_before(b, a) {
        assert(a.take(0) =~= b.take(0));
        lemma_before_total_from(a, b, 0);
    }
}

/// Whether `a` stands before `b` in lexical order.
pub fn stands_before(a: &str, b: &str) -> (held: bool)
    ensures
        held == is_before(a@, b@),
{
    let left = chars_of(a);
    let right = chars_of(b);
    let mut i: usize = 0;
    while i < left.len() && i < right.len()
        invariant
            left@ == a@,
            right@ == b@,
            i <= left.len(),
            i <= right.len(),
            before_from(a@, b@, i as int) == is_before(a@, b@),
        decreases left.len() - i,
    {
        if left[i] != right[i] {
            return left[i] < right[i];
        }
        i += 1;
    }
    i < right.len()
}

/// The first text from `i` on that does not stand before `key`.
pub open spec fn place_from(texts: Seq<Seq<char>>, key: Seq<char>, i: int) -> int
    decreases texts.len() - i,
{
    if i < 0 || i >= texts.len() {
        texts.len() as int
    } else if is_before(texts[i], key) {
        place_from(texts, key, i + 1)
    } else {
        i
    }
}

/// Where `key` belongs among sorted texts.
pub open spec fn place_of(texts: Seq<Seq<char>>, key: Seq<char>) -> int {
    place_from(texts, key, 0)
}

proof fn lemma_place_from(texts: Seq<Seq<char>>, key: Seq<char>, i: int)
    requires
        0 <= i <= texts.len(),
    ensures
        i <= place_from(texts, key, i) <= texts.len(),
        forall|k: int| i <= k < place_from(texts, key, i) ==> is_before(#[trigger] texts[k], key),
        place_from(texts, key, i) < texts.len() ==> !is_before(texts[place_from(texts, key, i)], key),
    decreases texts.len() - i,
{
    if i < texts.len() && is_before(texts[i], key) {
        lemma_place_from(texts, key, i + 1);
    }
}

/// Putting a key where it belongs, unless it is there already, keeps texts
/// sorted.
pub proof fn lemma_place(texts: Seq<Seq<char>>, key: Seq<char>)
    requires
        is_sorted(texts),
    ensures
        0 <= place_of(texts, key) <= texts.len(),
        texts.contains(key) == (place_of(texts, key) < texts.len() && texts[place_of(texts, key)]
            == key),
        !texts.contains(key) ==> is_sorted(texts.insert(place_of(texts, key), key)),
{
    let at = place_of(texts, key);
    lemma_place_from(texts, key, 0);
    if texts.contains(key) {
        let k = choose|k: int| 0 <= k < texts.len() && texts[k] == key;
        lemma_order(key, key, key);
        assert(at <= k) by {
            if k < at {
                assert(is_before(texts[k], key));
            }
        }
        if at < k {
            assert(is_before(texts[at], texts[k]));
        }
        assert(at == k);
    } else {
        let more = texts.insert(at, key);
        assert forall|i: int, j: int| 0 <= i < j < more.len() implies is_before(
            #[trigger] more[i],
            #[trigger] more[j],
        ) by {
            if i < at {
                assert(more[i] == texts[i]);
                if j < at {
                    assert(more[j] == texts[j]);
                } else if j > at {
                    assert(more[j] == texts[j - 1]);
                }
            } else if i == at {
                assert(more[j] == texts[j - 1]);
                lemma_order(texts[at], key, key);
                lemma_order(key, texts[at], key);
                assert(texts[at] != key);
                assert(is_before(key, texts[at]));
                if at < j - 1 {
                    assert(is_before(texts[at], texts[j - 1]));
                    lemma_order(key, texts[at], texts[j - 1]);
                }
            } else {
                assert(more[i] == texts[i - 1]);
                assert(more[j] == texts[j - 1]);
            }
        }
    }
}

/// Where a key belongs among sorted texts.
pub fn find_place(sorted: &[String], key: &str) -> (at: usize)
    ensures
        at == place_of(strings::texts(sorted@), key@),
        at <= sorted.len(),
{
    let ghost all = strings::texts(sorted@);
    let mut i: usize = 0;
    while i < sorted.len() && stands_before(sorted[i].as_str(), key)
        invariant
            i <= sorted.len(),
            all == strings::texts(sorted@),
            place_from(all, key@, i as int) == place_of(all, key@),
        decreases sorted.len() - i,
    {
        assert(all[i as int] == sorted@[i as int]@);
        i += 1;
    }
    if i < sorted.len() {
        assert(all[i as int] == sorted@[i as int]@);
    }
    i
}

/// The texts of a set, sorted: each text of the first `n` put where it belongs,
/// unless it is there already.
pub open spec fn sorted_set(texts: Seq<Seq<char>>, n: nat) -> Seq<Seq<char>>
    decreases n,
{
    if n == 0 || n > texts.len() {
        Seq::empty()
    } else {
        let before = sorted_set(texts, (n - 1) as nat);
        let text = texts[n - 1];
        if before.contains(text) {
            before
        } else {
            before.insert(place_of(before, text), text)
        }
    }
}

/// Sorting gives the same texts, each once, in lexical order.
pub proof fn lemma_sorted_set(texts: Seq<Seq<char>>, n: nat)
    requires
        n <= texts.len(),
    ensures
        is_sorted(sorted_set(texts, n)),
        forall|text: Seq<char>|
            sorted_set(texts, n).contains(text) <==> exists|i: int|
                0 <= i < n && #[trigger] texts[i] == text,
        sorted_set(texts, n).len() <= n,
    decreases n,
{
    if n > 0 {
        let before = sorted_set(texts, (n - 1) as nat);
        lemma_sorted_set(texts, (n - 1) as nat);
        let added = texts[n - 1];
        lemma_place(before, added);
        let at = place_of(before, added);
        let after = sorted_set(texts, n);
        assert forall|text: Seq<char>| after.contains(text) <==> exists|i: int|
            0 <= i < n && #[trigger] texts[i] == text by {
            if before.contains(text) {
                let k = choose|k: int| 0 <= k < before.len() && before[k] == text;
                if !before.contains(added) {
                    if k < at {
                        assert(after[k] == text);
                    } else {
                        assert(after[k + 1] == text);
                    }
                }
                let i = choose|i: int| 0 <= i < n - 1 && #[trigger] texts[i] == text;
                assert(texts[i] == text);
            }
            if text == added && !before.contains(added) {
                assert(after[at] == text);
            }
            if after.contains(text) && !before.contains(text) {
                let k = choose|k: int| 0 <= k < after.len() && after[k] == text;
                if k < at {
                    assert(before[k] == text);
                } else if k > at {
                    assert(before[k - 1] == text);
                }
                assert(texts[n - 1] == text);
            }
        }
    }
}

/// The texts, each once, in lexical order.
pub fn sort_texts(given: &[String]) -> (sorted: Vec<String>)
    ensures
        strings::texts(sorted@) == sorted_set(strings::texts(given@), given@.len()),
{
    let ghost all = strings::texts(given@);
    let mut sorted: Vec<String> = Vec::new();
    let mut i: usize = 0;
    assert(strings::texts(sorted@) =~= Seq::empty());
    while i < given.len()
        invariant
            i <= given.len(),
            all == strings::texts(given@),
            strings::texts(sorted@) == sorted_set(all, i as nat),
        decreases given.len() - i,
    {
        let ghost before = strings::texts(sorted@);
        let key = given[i].clone();
        assert(all[i as int] == key@);
        proof {
            lemma_sorted_set(all, i as nat);
            lemma_place(before, key@);
        }
        let at = find_place(&sorted, key.as_str());
        if at < sorted.len() {
            assert(before[at as int] == sorted@[at as int]@);
        }
        if at >= sorted.len() || !strings::same_text(sorted[at].as_str(), key.as_str()) {
            sorted.insert(at, key);
            assert(strings::texts(sorted@) =~= before.insert(at as int, key@));
        }
        i += 1;
    }
    sorted
}

/// Texts are ordered by their first characters that differ, and a text stands before
/// those that it begins.
pub proof fn texts_are_ordered_by_their_characters(
    front: Seq<char>,
    a: char,
    b: char,
    x: Seq<char>,
    y: Seq<char>,
)
    ensures
        a < b ==> is_before(front + seq![a] + x, front + seq![b] + y),
        is_before(front, front + seq![a] + x),
{
    if a < b {
        lemma_before_behind(front, front + seq![a] + x, front + seq![b] + y, 0);
    }
    lemma_before_longer(front, front + seq![a] + x, 0);
}

proof fn lemma_before_behind(front: Seq<char>, first: Seq<char>, second: Seq<char>, i: int)
    requires
        0 <= i <= front.len(),
        front.len() < first.len(),
        front.len() < second.len(),
        front.is_prefix_of(first),
        front.is_prefix_of(second),
        first[front.len() as int] < second[front.len() as int],
    ensures
        before_from(first, second, i),
    decreases front.len() - i,
{
    if i < front.len() {
        assert(first[i] == front[i] && second[i] == front[i]);
        lemma_before_behind(front, first, second, i + 1);
    }
}

proof fn lemma_before_longer(front: Seq<char>, longer: Seq<char>, i: int)
    requires
        0 <= i <= front.len(),
        front.len() < longer.len(),
        front.is_prefix_of(longer),
    ensures
        before_from(front, longer, i),
    decreases front.len() - i,
{
    if i < front.len() {
        assert(longer[i] == front[i]);
        lemma_before_longer(front, longer, i + 1);
    }
}

} // verus!
