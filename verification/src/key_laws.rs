//! What the typing progress keeps and promises across calls.

use vstd::prelude::*;
use crate::assoc::{distinct_keys, has_key, index_of, lemma_index_of_unique, lookup, put, Entry};
use crate::key_counts::{
    advance, count_keys_accepts, fill_spells, spec_pop_and_refill, type_key, walk,
};

verus! {

/// The letters left of `spell` are the tail of it still to type: a non-empty
/// end piece of the spell (or nothing, for an empty spell).
pub open spec fn on_track(spell: Seq<char>, remaining: Seq<char>) -> bool {
    ||| (0 < remaining.len() <= spell.len() && remaining == spell.skip(spell.len() - remaining.len()))
    ||| (spell.len() == 0 && remaining.len() == 0)
}

/// Every spell's letters left are on track.
pub open spec fn progress_ok(es: Seq<Entry>) -> bool {
    forall|m: int| 0 <= m < es.len() ==> #[trigger] on_track(es[m].0, es[m].1)
}

/// The progress after the letters `cs` are typed one after another.
pub open spec fn after_typing(es: Seq<Entry>, cs: Seq<char>) -> Seq<Entry>
    decreases cs.len(),
{
    if cs.len() == 0 {
        es
    } else {
        type_key(after_typing(es, cs.drop_last()), cs.last()).0
    }
}

/// The spell finished by the letter at position `j` of `cs`, the letters before
/// it having been typed already.
pub open spec fn finished_by(es: Seq<Entry>, cs: Seq<char>, j: int) -> Option<Seq<char>> {
    type_key(after_typing(es, cs.take(j)), cs[j]).1
}

/// Advancing letters that are on track (or that are not there at all) gives
/// letters on track.
pub proof fn lemma_advance_on_track(spell: Seq<char>, remaining: Seq<char>)
    requires
        on_track(spell, remaining) || remaining.len() == 0,
    ensures
        on_track(spell, advance(spell, remaining).0),
{
    let rest = if remaining.len() > 0 {
        remaining.drop_first()
    } else {
        remaining
    };
    if rest.len() == 0 {
        assert(spell.skip(0) =~= spell);
    } else {
        assert(rest =~= spell.skip(spell.len() - rest.len()));
    }
}

/// The next letter of an entry is `c`.
pub open spec fn next_is(e: Entry, c: char) -> bool {
    e.1.len() > 0 && e.1[0] == c
}

/// Typing `c` finishes the entry: `c` is the one letter it has left.
pub open spec fn finishes(e: Entry, c: char) -> bool {
    e.1.len() == 1 && e.1[0] == c
}

/// The letters an entry has left once `c` is typed, where it does not finish:
/// the first taken off if it is `c`, all kept otherwise.
pub open spec fn stepped(e: Entry, c: char) -> Seq<char> {
    if next_is(e, c) {
        e.1.drop_first()
    } else {
        e.1
    }
}

/// The walk from `i` over `es` ended with the entry at `f`, which `c`
/// finished: the entries from `i` up to `f` took the letter without finishing,
/// the entry at `f` starts over, and those after it are as they were.
pub open spec fn ended_at(es: Seq<Entry>, w: Seq<Entry>, c: char, i: int, f: int) -> bool {
    &&& i <= f < es.len()
    &&& finishes(es[f], c)
    &&& w[f].1 == es[f].0
    &&& forall|m: int| i <= m < f ==> !finishes(#[trigger] es[m], c) && w[m].1 == stepped(es[m], c)
    &&& forall|m: int| f < m < es.len() ==> #[trigger] w[m] == es[m]
}

/// Law (what a walk does to each entry): it keeps the spells where they are
/// and the entries before its start as they were. Where it finishes nothing,
/// every entry from the start on has taken the letter (the first letter off
/// if it was the next one, nothing otherwise) and none was finished by it.
/// Where it finishes spell `x`, `x` is the first entry from the start that
/// the letter finishes; it starts over, those before it took the letter, and
/// those after it are as they were.
pub proof fn lemma_walk_rule(es: Seq<Entry>, c: char, i: int)
    requires
        0 <= i <= es.len(),
    ensures
        walk(es, c, i).0.len() == es.len(),
        forall|m: int| 0 <= m < es.len() ==> #[trigger] walk(es, c, i).0[m].0 == es[m].0,
        forall|m: int| 0 <= m < i ==> #[trigger] walk(es, c, i).0[m] == es[m],
        walk(es, c, i).1 is None ==> forall|m: int|
            i <= m < es.len() ==> !finishes(#[trigger] es[m], c) && walk(es, c, i).0[m].1
                == stepped(es[m], c),
        walk(es, c, i).1 matches Some(x) ==> exists|f: int|
            #[trigger] ended_at(es, walk(es, c, i).0, c, i, f) && x == es[f].0,
    decreases es.len() - i,
{
    if i < es.len() {
        if es[i].1.len() == 0 || es[i].1[0] != c {
            lemma_walk_rule(es, c, i + 1);
            assert(walk(es, c, i) == walk(es, c, i + 1));
            let w = walk(es, c, i + 1).0;
            if walk(es, c, i + 1).1 is Some {
                let f = choose|f: int|
                    #[trigger] ended_at(es, w, c, i + 1, f) && walk(es, c, i + 1).1->0 == es[f].0;
                assert(ended_at(es, walk(es, c, i).0, c, i, f) && walk(es, c, i).1->0 == es[f].0);
            }
        } else {
            let next = advance(es[i].0, es[i].1);
            let es2 = es.update(i, (es[i].0, next.0));
            if next.1 {
                assert(walk(es, c, i) == (es2, Some(es[i].0)));
                assert(ended_at(es, walk(es, c, i).0, c, i, i) && walk(es, c, i).1->0 == es[i].0);
            } else {
                assert(walk(es, c, i) == walk(es2, c, i + 1));
                lemma_walk_rule(es2, c, i + 1);
                let w = walk(es2, c, i + 1).0;
                assert(w[i] == es2[i]);
                assert(es[i].1.drop_first() == next.0);
                if walk(es2, c, i + 1).1 is Some {
                    let f = choose|f: int|
                        #[trigger] ended_at(es2, w, c, i + 1, f) && walk(es2, c, i + 1).1->0
                            == es2[f].0;
                    assert forall|m: int| i <= m < f implies !finishes(#[trigger] es[m], c)
                        && w[m].1 == stepped(es[m], c) by {
                        if m > i {
                            assert(es2[m] == es[m]);
                        }
                    }
                    assert forall|m: int| f < m < es.len() implies #[trigger] w[m] == es[m] by {
                        assert(es2[m] == es[m]);
                    }
                    assert(ended_at(es, walk(es, c, i).0, c, i, f) && walk(es, c, i).1->0 == es[f].0);
                } else {
                    assert forall|m: int| i <= m < es.len() implies !finishes(#[trigger] es[m], c)
                        && w[m].1 == stepped(es[m], c) by {
                        if m > i {
                            assert(es2[m] == es[m]);
                        }
                    }
                }
            }
        }
    }
}

/// Law (what typing a letter does to each entry): the spells stay where they
/// are, and each entry either keeps its letters, or had the letter next and
/// lost exactly that one, or had only that letter left and starts over. An
/// entry starts over only where the letter finished its spell, which is then
/// the spell reported.
pub proof fn lemma_type_key_rule(es: Seq<Entry>, c: char)
    ensures
        type_key(es, c).0.len() == es.len(),
        forall|m: int|
            0 <= m < es.len() ==> {
                let n = #[trigger] type_key(es, c).0[m];
                &&& n.0 == es[m].0
                &&& {
                    ||| n.1 == es[m].1
                    ||| (next_is(es[m], c) && es[m].1.len() > 1 && n.1 == es[m].1.drop_first())
                    ||| (es[m].1 == seq![c] && n.1 == es[m].0 && type_key(es, c).1 == Some(
                        es[m].0,
                    ))
                }
            },
        type_key(es, c).1 matches Some(x) ==> exists|m: int|
            0 <= m < es.len() && #[trigger] es[m].0 == x && es[m].1 == seq![c],
{
    lemma_walk_rule(es, c, 0);
    let w = walk(es, c, 0).0;
    if walk(es, c, 0).1 is Some {
        let x = walk(es, c, 0).1->0;
        let f = choose|f: int| #[trigger] ended_at(es, w, c, 0, f) && x == es[f].0;
        assert(es[f].1 =~= seq![c]);
        assert forall|m: int| 0 <= m < es.len() implies {
            let n = #[trigger] type_key(es, c).0[m];
            &&& n.0 == es[m].0
            &&& {
                ||| n.1 == es[m].1
                ||| (next_is(es[m], c) && es[m].1.len() > 1 && n.1 == es[m].1.drop_first())
                ||| (es[m].1 == seq![c] && n.1 == es[m].0 && type_key(es, c).1 == Some(es[m].0))
            }
        } by {
            if m < f {
                assert(!finishes(es[m], c));
            }
        }
    } else {
        assert forall|m: int| 0 <= m < es.len() implies {
            let n = #[trigger] type_key(es, c).0[m];
            &&& n.0 == es[m].0
            &&& {
                ||| n.1 == es[m].1
                ||| (next_is(es[m], c) && es[m].1.len() > 1 && n.1 == es[m].1.drop_first())
                ||| (es[m].1 == seq![c] && n.1 == es[m].0 && type_key(es, c).1 == Some(es[m].0))
            }
        } by {
            assert(!finishes(es[m], c));
        }
    }
}

/// Law: a walk keeps every spell on track.
pub proof fn lemma_walk_keeps_on_track(es: Seq<Entry>, c: char, i: int)
    requires
        progress_ok(es),
    ensures
        progress_ok(walk(es, c, i).0),
    decreases es.len() - i,
{
    if i < 0 || i >= es.len() {
    } else if es[i].1.len() == 0 || es[i].1[0] != c {
        lemma_walk_keeps_on_track(es, c, i + 1);
    } else {
        let next = advance(es[i].0, es[i].1);
        let es2 = es.update(i, (es[i].0, next.0));
        assert(on_track(es[i].0, es[i].1));
        lemma_advance_on_track(es[i].0, es[i].1);
        assert forall|m: int| 0 <= m < es2.len() implies #[trigger] on_track(es2[m].0, es2[m].1) by {
            if m != i {
                assert(on_track(es[m].0, es[m].1));
            }
        }
        if !next.1 {
            lemma_walk_keeps_on_track(es2, c, i + 1);
        }
    }
}

/// Law: typing a letter keeps every spell on track.
pub proof fn lemma_type_key_keeps_on_track(es: Seq<Entry>, c: char)
    requires
        progress_ok(es),
    ensures
        progress_ok(type_key(es, c).0),
{
    lemma_walk_keeps_on_track(es, c, 0);
}

/// Storing letters that are on track keeps every spell on track.
proof fn lemma_put_keeps_on_track(es: Seq<Entry>, k: Seq<char>, v: Seq<char>)
    requires
        progress_ok(es),
        on_track(k, v),
    ensures
        progress_ok(put(es, k, v)),
{
    let r = put(es, k, v);
    assert forall|m: int| 0 <= m < r.len() implies #[trigger] on_track(r[m].0, r[m].1) by {
        if has_key(es, k) {
            if m != index_of(es, k) {
                assert(on_track(es[m].0, es[m].1));
            }
        } else if m < es.len() {
            assert(on_track(es[m].0, es[m].1));
        }
    }
}

/// Law: `pop_and_refill` keeps every spell on track, the one it touches
/// included (also where it starts tracking a new spell).
pub proof fn lemma_pop_and_refill_keeps_on_track(es: Seq<Entry>, key: Seq<char>)
    requires
        progress_ok(es),
    ensures
        progress_ok(spec_pop_and_refill(es, key).0),
{
    if has_key(es, key) {
        let i = index_of(es, key);
        assert(on_track(es[i].0, es[i].1));
        lemma_advance_on_track(key, es[i].1);
        lemma_put_keeps_on_track(es, key, advance(key, es[i].1).0);
    } else {
        lemma_advance_on_track(key, Seq::<char>::empty());
        lemma_put_keeps_on_track(es, key, advance(key, Seq::<char>::empty()).0);
    }
}

/// Law: starting the spells of a book keeps every spell on track.
pub proof fn lemma_fill_spells_keeps_on_track(es: Seq<Entry>, book: Seq<Entry>)
    requires
        progress_ok(es),
    ensures
        progress_ok(fill_spells(es, book)),
    decreases book.len(),
{
    if book.len() > 0 {
        lemma_fill_spells_keeps_on_track(es, book.drop_last());
        let s = book.last().0;
        assert(s.skip(0) =~= s);
        lemma_put_keeps_on_track(fill_spells(es, book.drop_last()), s, s);
    }
}

/// The state part way through typing spell `s` = `es[k].0`: the spells stay
/// where they are, and `s` has the letters after the first `j` left.
spec fn typing_state(es: Seq<Entry>, k: int, j: int) -> bool {
    let s = es[k].0;
    let e = after_typing(es, s.take(j));
    &&& e.len() == es.len()
    &&& forall|m: int| 0 <= m < es.len() ==> #[trigger] e[m].0 == es[m].0
    &&& e[k].1 == s.skip(j)
}

/// No spell other than `s` is finished while the letters of `s` are typed.
pub open spec fn no_other_finishes(es: Seq<Entry>, s: Seq<char>) -> bool {
    forall|j: int|
        0 <= j < s.len() ==> (#[trigger] finished_by(es, s, j) is None || finished_by(es, s, j)
            == Some(s))
}

/// Entry lists with the same spells in the same places, one with distinct
/// spells, both have distinct spells.
proof fn lemma_same_keys_distinct(es: Seq<Entry>, e: Seq<Entry>)
    requires
        distinct_keys(es),
        e.len() == es.len(),
        forall|m: int| 0 <= m < es.len() ==> #[trigger] e[m].0 == es[m].0,
    ensures
        distinct_keys(e),
{
    assert forall|i: int, j: int|
        0 <= i < e.len() && 0 <= j < e.len() && i != j implies #[trigger] e[i].0 != #[trigger] e[j].0 by {
        assert(es[i].0 != es[j].0);
    }
}

proof fn lemma_typing_prefix(es: Seq<Entry>, k: int, j: int)
    requires
        distinct_keys(es),
        0 <= k < es.len(),
        es[k].1 == es[k].0,
        es[k].0.len() > 0,
        no_other_finishes(es, es[k].0),
        0 <= j < es[k].0.len(),
    ensures
        typing_state(es, k, j),
        forall|jj: int| 0 <= jj < j ==> #[trigger] finished_by(es, es[k].0, jj) is None,
    decreases j,
{
    let s = es[k].0;
    if j == 0 {
        assert(s.take(0) =~= Seq::<char>::empty());
        assert(s.skip(0) =~= s);
    } else {
        let p = j - 1;
        lemma_typing_prefix(es, k, p);
        let e = after_typing(es, s.take(p));
        let c = s[p];
        assert(s.take(j).drop_last() =~= s.take(p));
        assert(s.take(j).last() == c);
        lemma_same_keys_distinct(es, e);
        lemma_walk_rule(e, c, 0);
        let w = walk(e, c, 0);
        assert(after_typing(es, s.take(j)) == w.0);
        assert(finished_by(es, s, p) == w.1);
        assert(e[k].1 == s.skip(p));
        assert(next_is(e[k], c));
        if w.1 is Some {
            let f = choose|f: int| #[trigger] ended_at(e, w.0, c, 0, f) && w.1->0 == e[f].0;
            assert(w.1 == Some(s));
            assert(e[f].0 == e[k].0);
            assert(f == k);
            assert(false);
        }
        assert(s.skip(p).drop_first() =~= s.skip(j));
        assert(w.0[k].1 == stepped(e[k], c));
    }
}

/// Law (typing a spell brings up its image): where spell `s` is tracked at
/// position `k` with all of its letters left, typing the letters of `s` one
/// after another finishes `s` with the last letter and not before, and leaves
/// `s` to be typed afresh, unless another spell is finished first (where one
/// is, `s` can fall out of step).
pub proof fn lemma_typing_a_spell_finishes_it(es: Seq<Entry>, k: int)
    requires
        distinct_keys(es),
        0 <= k < es.len(),
        es[k].1 == es[k].0,
        es[k].0.len() > 0,
        no_other_finishes(es, es[k].0),
    ensures
        forall|j: int| 0 <= j < es[k].0.len() - 1 ==> #[trigger] finished_by(es, es[k].0, j) is None,
        finished_by(es, es[k].0, es[k].0.len() - 1) == Some(es[k].0),
        after_typing(es, es[k].0).len() == es.len(),
        forall|m: int| 0 <= m < es.len() ==> #[trigger] after_typing(es, es[k].0)[m].0 == es[m].0,
        after_typing(es, es[k].0)[k] == (es[k].0, es[k].0),
{
    let s = es[k].0;
    let p = s.len() - 1;
    lemma_typing_prefix(es, k, p);
    let e = after_typing(es, s.take(p));
    let c = s[p];
    assert(s.drop_last() =~= s.take(p));
    lemma_same_keys_distinct(es, e);
    lemma_walk_rule(e, c, 0);
    let w = walk(e, c, 0);
    assert(after_typing(es, s) == w.0);
    assert(finished_by(es, s, p) == w.1);
    assert(e[k].1 == s.skip(p));
    assert(s.skip(p) =~= seq![c]);
    assert(finishes(e[k], c));
    if w.1 is None {
        assert(!finishes(e[k], c));
    }
    let f = choose|f: int| #[trigger] ended_at(e, w.0, c, 0, f) && w.1->0 == e[f].0;
    assert(e[f].0 == s);
    assert(f == k);
    assert(w.0[k].0 == s);
}

/// Every spell of `book` with all of its letters to type, in the book's order.
pub open spec fn fresh_progress(book: Seq<Entry>) -> Seq<Entry> {
    book.map_values(|e: Entry| (e.0, e.0))
}

/// Law (a fresh start): starting the spells of a book with distinct spells
/// from no progress tracks exactly those spells, in the book's order, each
/// with all of its letters to type; and every spell is then on track.
pub proof fn lemma_fresh_start(book: Seq<Entry>)
    requires
        distinct_keys(book),
    ensures
        fill_spells(Seq::empty(), book) == fresh_progress(book),
        distinct_keys(fill_spells(Seq::empty(), book)),
        progress_ok(fill_spells(Seq::empty(), book)),
    decreases book.len(),
{
    if book.len() == 0 {
        assert(fresh_progress(book) =~= Seq::<Entry>::empty());
    } else {
        let init = book.drop_last();
        assert(distinct_keys(init));
        lemma_fresh_start(init);
        let prev = fill_spells(Seq::<Entry>::empty(), init);
        let s = book.last().0;
        assert(!has_key(prev, s)) by {
            if has_key(prev, s) {
                let j = index_of(prev, s);
                assert(prev[j].0 == init[j].0);
                assert(book[j].0 == book[book.len() - 1].0);
            }
        }
        assert(fill_spells(Seq::empty(), book) == prev.push((s, s)));
        assert(fresh_progress(book) =~= prev.push((s, s)));
        assert(s.skip(0) =~= s);
    }
}

/// Law (typing a spell after a fresh start brings up its image): after the
/// spells of a book with distinct spells are started from no progress, typing
/// the letters of any of its spells (a non-empty one) finishes it with its
/// last letter and not before, unless another spell is finished first.
pub proof fn lemma_spell_after_fresh_start(book: Seq<Entry>, k: int)
    requires
        distinct_keys(book),
        0 <= k < book.len(),
        book[k].0.len() > 0,
        no_other_finishes(fill_spells(Seq::empty(), book), book[k].0),
    ensures
        forall|j: int|
            0 <= j < book[k].0.len() - 1 ==> #[trigger] finished_by(
                fill_spells(Seq::empty(), book),
                book[k].0,
                j,
            ) is None,
        finished_by(fill_spells(Seq::empty(), book), book[k].0, book[k].0.len() - 1) == Some(
            book[k].0,
        ),
{
    lemma_fresh_start(book);
    let es = fill_spells(Seq::<Entry>::empty(), book);
    assert(es[k] == (book[k].0, book[k].0));
    lemma_typing_a_spell_finishes_it(es, k);
}

/// Typing `a` and then `b` is typing `a + b`.
pub proof fn lemma_after_typing_concat(es: Seq<Entry>, a: Seq<char>, b: Seq<char>)
    ensures
        after_typing(es, a + b) == after_typing(after_typing(es, a), b),
    decreases b.len(),
{
    if b.len() == 0 {
        assert(a + b =~= a);
    } else {
        assert((a + b).drop_last() =~= a + b.drop_last());
        assert((a + b).last() == b.last());
        lemma_after_typing_concat(es, a, b.drop_last());
    }
}

/// Typing keeps the spells where they are.
pub proof fn lemma_after_typing_keys(es: Seq<Entry>, cs: Seq<char>)
    ensures
        after_typing(es, cs).len() == es.len(),
        forall|m: int| 0 <= m < es.len() ==> #[trigger] after_typing(es, cs)[m].0 == es[m].0,
    decreases cs.len(),
{
    if cs.len() > 0 {
        lemma_after_typing_keys(es, cs.drop_last());
        lemma_walk_rule(after_typing(es, cs.drop_last()), cs.last(), 0);
    }
}

/// The spell `s` typed `k` times over.
pub open spec fn repeated(s: Seq<char>, k: nat) -> Seq<char>
    decreases k,
{
    if k == 0 {
        Seq::empty()
    } else {
        repeated(s, (k - 1) as nat) + s
    }
}

/// The position of letter `r` of round `q` when each round has `n` letters.
pub open spec fn round_pos(q: int, r: int, n: int) -> int {
    q * n + r
}

proof fn lemma_repeated_len(s: Seq<char>, k: nat)
    ensures
        repeated(s, k).len() == k * s.len(),
    decreases k,
{
    if k > 0 {
        lemma_repeated_len(s, (k - 1) as nat);
        let n = s.len() as int;
        let kk = k as int;
        assert((kk - 1) * n + n == kk * n) by (nonlinear_arith);
        assert(((k - 1) as nat) as int == kk - 1);
        assert(repeated(s, k).len() == repeated(s, (k - 1) as nat).len() + s.len());
        assert(repeated(s, (k - 1) as nat).len() == (kk - 1) * n);
        assert(repeated(s, k).len() == kk * n);
        assert(kk * n == k * s.len());
    } else {
        assert(k * s.len() == 0) by (nonlinear_arith)
            requires
                k == 0,
        ;
    }
}

proof fn lemma_repeated_index(s: Seq<char>, k: nat, q: int, r: int)
    requires
        0 <= q < k,
        0 <= r < s.len(),
    ensures
        repeated(s, k).take(round_pos(q, r, s.len() as int)) == repeated(s, q as nat) + s.take(r),
        repeated(s, k)[round_pos(q, r, s.len() as int)] == s[r],
    decreases k,
{
    let n = s.len() as int;
    let a = repeated(s, (k - 1) as nat);
    lemma_repeated_len(s, (k - 1) as nat);
    let i = round_pos(q, r, n);
    if q < k - 1 {
        assert(q * n + r < (k - 1) * n) by (nonlinear_arith)
            requires
                0 <= q < k - 1,
                0 <= r < n,
        ;
        lemma_repeated_index(s, (k - 1) as nat, q, r);
        assert(repeated(s, k).take(i) =~= a.take(i));
        assert(repeated(s, k)[i] == a[i]);
    } else {
        assert(i == a.len() + r);
        assert(repeated(s, k).take(i) =~= a + s.take(r));
        assert(repeated(s, k)[i] == s[r]);
    }
}

/// Typing the one tracked spell in full brings the progress back to where it
/// started, and finishes the spell with its last letter only.
proof fn lemma_single_round(s: Seq<char>)
    requires
        s.len() > 0,
    ensures
        after_typing(seq![(s, s)], s) == seq![(s, s)],
        forall|j: int| 0 <= j < s.len() - 1 ==> #[trigger] finished_by(seq![(s, s)], s, j) is None,
        finished_by(seq![(s, s)], s, s.len() - 1) == Some(s),
{
    let es = seq![(s, s)];
    assert forall|j: int| 0 <= j < s.len() implies (#[trigger] finished_by(es, s, j) is None
        || finished_by(es, s, j) == Some(s)) by {
        let e = after_typing(es, s.take(j));
        lemma_after_typing_keys(es, s.take(j));
        lemma_walk_rule(e, s[j], 0);
        if walk(e, s[j], 0).1 is Some {
            let f = choose|f: int| #[trigger] ended_at(e, walk(e, s[j], 0).0, s[j], 0, f)
                && walk(e, s[j], 0).1->0 == e[f].0;
            assert(f == 0);
        }
    }
    lemma_typing_a_spell_finishes_it(es, 0);
    assert(after_typing(es, s) =~= es);
}

/// Law (typing a spell over and over): where one spell `s` is tracked, with
/// all of its letters left, typing `s` `k` times over finishes `s` at the last
/// letter of each round and at no other letter, and leaves the progress as it
/// started.
pub proof fn lemma_repeated_typing(s: Seq<char>, k: nat)
    requires
        s.len() > 0,
    ensures
        after_typing(seq![(s, s)], repeated(s, k)) == seq![(s, s)],
        forall|q: int, r: int|
            0 <= q < k && 0 <= r < s.len() ==> #[trigger] finished_by(
                seq![(s, s)],
                repeated(s, k),
                round_pos(q, r, s.len() as int),
            ) == if r == s.len() - 1 {
                Some(s)
            } else {
                None
            },
    decreases k,
{
    let es = seq![(s, s)];
    lemma_single_round(s);
    if k > 0 {
        lemma_repeated_typing(s, (k - 1) as nat);
        lemma_after_typing_concat(es, repeated(s, (k - 1) as nat), s);
    }
    assert forall|q: int, r: int| 0 <= q < k && 0 <= r < s.len() implies #[trigger] finished_by(
        es,
        repeated(s, k),
        round_pos(q, r, s.len() as int),
    ) == if r == s.len() - 1 {
        Some(s)
    } else {
        None
    } by {
        lemma_repeated_index(s, k, q, r);
        lemma_repeated_typing(s, q as nat);
        lemma_after_typing_concat(es, repeated(s, q as nat), s.take(r));
        assert(finished_by(es, repeated(s, k), round_pos(q, r, s.len() as int)) == finished_by(
            es,
            s,
            r,
        ));
    }
}

/// The progress after `pop_and_refill(key)` is called `j` times.
pub open spec fn pop_times(es: Seq<Entry>, key: Seq<char>, j: nat) -> Seq<Entry>
    decreases j,
{
    if j == 0 {
        es
    } else {
        spec_pop_and_refill(pop_times(es, key, (j - 1) as nat), key).0
    }
}

/// What the call of `pop_and_refill(key)` after `j` earlier ones returns.
pub open spec fn pop_result(es: Seq<Entry>, key: Seq<char>, j: nat) -> bool {
    spec_pop_and_refill(pop_times(es, key, j), key).1
}

proof fn lemma_pop_prefix(es: Seq<Entry>, key: Seq<char>, j: nat)
    requires
        distinct_keys(es),
        lookup(es, key) == Some(key),
        0 <= j < key.len(),
    ensures
        pop_times(es, key, j) == es.update(index_of(es, key), (key, key.skip(j as int))),
        forall|jj: nat| jj < j ==> !#[trigger] pop_result(es, key, jj),
    decreases j,
{
    let i = index_of(es, key);
    if j == 0 {
        assert(key.skip(0) =~= key);
        assert(es.update(i, (key, key)) =~= es);
    } else {
        let p = (j - 1) as nat;
        lemma_pop_prefix(es, key, p);
        let cur = pop_times(es, key, p);
        assert(cur[i] == (key, key.skip(p as int)));
        lemma_same_keys_distinct(es, cur);
        lemma_index_of_unique(cur, i);
        assert(key.skip(p as int).drop_first() =~= key.skip(j as int));
        assert(advance(key, key.skip(p as int)) == (key.skip(j as int), false));
        assert(!pop_result(es, key, p));
        assert(pop_times(es, key, j) =~= es.update(i, (key, key.skip(j as int))));
    }
}

/// Law (a full cycle of `pop_and_refill`): where spell `key` (non-empty, of
/// `n` letters) is tracked with all of its letters left, `n` calls of
/// `pop_and_refill(key)` return `false` `n - 1` times and then `true`, and
/// leave the progress exactly as it was.
pub proof fn lemma_pop_and_refill_cycle(es: Seq<Entry>, key: Seq<char>)
    requires
        distinct_keys(es),
        lookup(es, key) == Some(key),
        key.len() > 0,
    ensures
        forall|j: nat| j < key.len() - 1 ==> !#[trigger] pop_result(es, key, j),
        pop_result(es, key, (key.len() - 1) as nat),
        pop_times(es, key, key.len()) == es,
{
    let n = key.len();
    let p = (n - 1) as nat;
    let i = index_of(es, key);
    lemma_pop_prefix(es, key, p);
    let cur = pop_times(es, key, p);
    lemma_same_keys_distinct(es, cur);
    lemma_index_of_unique(cur, i);
    assert(key.skip(p as int).drop_first() =~= Seq::<char>::empty());
    assert(advance(key, key.skip(p as int)) == (key, true));
    assert(pop_times(es, key, n) == pop_times(es, key, (p + 1) as nat));
    assert(pop_times(es, key, n) =~= es.update(i, (key, key)));
    assert(es.update(i, (key, key)) =~= es);
}

/// Law (what `count_keys` keeps): on the inputs `count_keys` takes (the spell
/// a letter finishes is in the book), typing a letter keeps every spell on
/// track, keeps the spells where they are, and changes each entry only as
/// `lemma_type_key_rule` says.
pub proof fn lemma_count_keys_keeps_on_track(es: Seq<Entry>, book: Seq<Entry>, c: char)
    requires
        progress_ok(es),
        count_keys_accepts(es, book, c),
    ensures
        progress_ok(type_key(es, c).0),
        type_key(es, c).0.len() == es.len(),
        forall|m: int|
            0 <= m < es.len() ==> {
                let n = #[trigger] type_key(es, c).0[m];
                &&& n.0 == es[m].0
                &&& {
                    ||| n.1 == es[m].1
                    ||| (next_is(es[m], c) && es[m].1.len() > 1 && n.1 == es[m].1.drop_first())
                    ||| (es[m].1 == seq![c] && n.1 == es[m].0 && type_key(es, c).1 == Some(
                        es[m].0,
                    ))
                }
            },
        type_key(es, c).1 matches Some(x) ==> has_key(book, x),
{
    lemma_type_key_keeps_on_track(es, c);
    lemma_type_key_rule(es, c);
}

} // verus!
