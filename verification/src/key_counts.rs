//! Typing progress: for each spell, the letters still to be typed. A typed
//! letter advances every spell it continues; when a spell's last letter is
//! typed, that spell starts over and its image is due.

use std::collections::VecDeque;
use vstd::prelude::*;
use crate::assoc::{
    as_map, distinct_keys, has_key, index_of, lemma_index_of_unique, lemma_lookup_map, lemma_put,
    lookup, put, Entry,
};
use crate::spell_book::SpellBook;

verus! {

/// One spell and the letters of it that are still to be typed, first letter first.
pub struct KeyProgress {
    pub spell: String,
    pub remaining: VecDeque<char>,
}

/// The views of a list of progress entries.
pub open spec fn progress_views(ps: Seq<KeyProgress>) -> Seq<Entry> {
    ps.map_values(|p: KeyProgress| (p.spell@, p.remaining@))
}

/// The typing progress of every spell; no spell occurs twice. Spells are
/// walked in the order in which they were first stored.
pub struct KeyCounts {
    entries: Vec<KeyProgress>,
}

impl View for KeyCounts {
    type V = Seq<Entry>;

    closed spec fn view(&self) -> Seq<Entry> {
        progress_views(self.entries@)
    }
}

/// The letters left after one is typed: the first is taken off, and a spell
/// with nothing left starts over (and is then reported finished).
pub open spec fn advance(spell: Seq<char>, remaining: Seq<char>) -> (Seq<char>, bool) {
    let rest = if remaining.len() > 0 {
        remaining.drop_first()
    } else {
        remaining
    };
    if rest.len() == 0 {
        (spell, true)
    } else {
        (rest, false)
    }
}

/// `pop_and_refill` on the model: the entry of `key` (an empty one where there
/// is none) is advanced and stored back.
pub open spec fn spec_pop_and_refill(es: Seq<Entry>, key: Seq<char>) -> (Seq<Entry>, bool) {
    let remaining = match lookup(es, key) {
        Some(r) => r,
        None => Seq::<char>::empty(),
    };
    let (next, finished) = advance(key, remaining);
    (put(es, key, next), finished)
}

/// A typed letter `c`, walked over the entries from position `i` on: an entry
/// with nothing left, or whose next letter is not `c`, is passed over and
/// keeps its letters; an entry whose next letter is `c` advances, and if that
/// finishes its spell the walk ends with that spell.
pub open spec fn walk(es: Seq<Entry>, c: char, i: int) -> (Seq<Entry>, Option<Seq<char>>)
    decreases es.len() - i,
{
    if i < 0 || i >= es.len() {
        (es, None)
    } else if es[i].1.len() == 0 || es[i].1[0] != c {
        walk(es, c, i + 1)
    } else {
        let next = advance(es[i].0, es[i].1);
        let es2 = es.update(i, (es[i].0, next.0));
        if next.1 {
            (es2, Some(es[i].0))
        } else {
            walk(es2, c, i + 1)
        }
    }
}

/// The progress after the letter `c` is typed, and the spell it finished.
pub open spec fn type_key(es: Seq<Entry>, c: char) -> (Seq<Entry>, Option<Seq<char>>) {
    walk(es, c, 0)
}

/// Storing every spell of `book` with all of its letters still to type, in
/// the book's order.
pub open spec fn fill_spells(es: Seq<Entry>, book: Seq<Entry>) -> Seq<Entry>
    decreases book.len(),
{
    if book.len() == 0 {
        es
    } else {
        let prev = fill_spells(es, book.drop_last());
        put(prev, book.last().0, book.last().0)
    }
}

impl KeyCounts {
    #[verifier::type_invariant]
    closed spec fn spells_distinct(&self) -> bool {
        distinct_keys(progress_views(self.entries@))
    }

    /// No progress kept.
    pub fn new() -> (res: KeyCounts)
        ensures
            res@ == Seq::<Entry>::empty(),
            distinct_keys(res@),
    {
        let res = KeyCounts { entries: Vec::new() };
        assert(res@ =~= Seq::<Entry>::empty());
        res
    }

    /// The number of spells tracked.
    pub fn len(&self) -> (n: usize)
        ensures
            n == self@.len(),
    {
        self.entries.len()
    }

    /// The letters of `spell` still to type, if it is tracked.
    pub fn remaining(&self, spell: &String) -> (res: Option<Vec<char>>)
        ensures
            match res {
                Some(r) => lookup(self@, spell@) == Some(r@),
                None => lookup(self@, spell@) is None,
            },
    {
        proof {
            use_type_invariant(self);
        }
        match self.find(spell) {
            Some(i) => {
                proof {
                    lemma_index_of_unique(self@, i as int);
                }
                let dq = &self.entries[i].remaining;
                let mut out: Vec<char> = Vec::new();
                let mut j: usize = 0;
                while j < dq.len()
                    invariant
                        0 <= j <= dq@.len(),
                        out@ == dq@.take(j as int),
                    decreases dq@.len() - j,
                {
                    out.push(dq[j]);
                    assert(dq@.take(j + 1) =~= dq@.take(j as int).push(dq@[j as int]));
                    j = j + 1;
                }
                assert(dq@.take(dq@.len() as int) =~= dq@);
                Some(out)
            },
            None => None,
        }
    }

    /// The position of `spell`, if it is tracked.
    fn find(&self, spell: &String) -> (res: Option<usize>)
        ensures
            match res {
                Some(i) => i < self@.len() && self@[i as int].0 == spell@ && index_of(self@, spell@)
                    == i && has_key(self@, spell@),
                None => !has_key(self@, spell@),
            },
    {
        proof {
            use_type_invariant(self);
        }
        let mut i: usize = 0;
        while i < self.entries.len()
            invariant
                0 <= i <= self.entries@.len(),
                self@.len() == self.entries@.len(),
                distinct_keys(self@),
                forall|j: int| 0 <= j < i ==> self@[j].0 != spell@,
            decreases self.entries@.len() - i,
        {
            if self.entries[i].spell == *spell {
                proof {
                    lemma_index_of_unique(self@, i as int);
                }
                return Some(i);
            }
            i = i + 1;
        }
        None
    }
}

/// The letters of `s`, first letter first.
fn letters_of(s: &str) -> (res: VecDeque<char>)
    ensures
        res@ == s@,
{
    let n = s.unicode_len();
    let mut dq: VecDeque<char> = VecDeque::new();
    let mut i: usize = 0;
    while i < n
        invariant
            n == s@.len(),
            0 <= i <= n,
            dq@ == s@.take(i as int),
        decreases n - i,
    {
        dq.push_back(s.get_char(i));
        assert(s@.take(i + 1) =~= s@.take(i as int).push(s@[i as int]));
        i = i + 1;
    }
    assert(s@.take(n as int) =~= s@);
    dq
}

/// A copy of a queue of letters.
fn copy_letters(dq: &VecDeque<char>) -> (res: VecDeque<char>)
    ensures
        res@ == dq@,
{
    let mut out: VecDeque<char> = VecDeque::new();
    let mut j: usize = 0;
    while j < dq.len()
        invariant
            0 <= j <= dq@.len(),
            out@ == dq@.take(j as int),
        decreases dq@.len() - j,
    {
        out.push_back(dq[j]);
        assert(dq@.take(j + 1) =~= dq@.take(j as int).push(dq@[j as int]));
        j = j + 1;
    }
    assert(dq@.take(dq@.len() as int) =~= dq@);
    out
}

/// Stores `remaining` under `spell` (in place, or appended where `spell` is new).
fn store(counts: &mut KeyCounts, spell: String, remaining: VecDeque<char>)
    ensures
        final(counts)@ == put(old(counts)@, spell@, remaining@),
        distinct_keys(final(counts)@),
{
    proof {
        use_type_invariant(&*counts);
        lemma_put(counts@, spell@, remaining@);
    }
    let ghost old_v = counts@;
    let found = counts.find(&spell);
    let mut es: Vec<KeyProgress> = Vec::new();
    std::mem::swap(&mut es, &mut counts.entries);
    match found {
        Some(i) => {
            es.set(i, KeyProgress { spell, remaining });
        },
        None => {
            es.push(KeyProgress { spell, remaining });
        },
    }
    assert(progress_views(es@) =~= put(old_v, spell@, remaining@));
    counts.entries = es;
}

/// Starts tracking every spell of the book from its first letter. Spells
/// tracked already start over; spells not in the book are kept as they are.
pub fn initialize_key_count(counts: &mut KeyCounts, book: &SpellBook)
    ensures
        final(counts)@ == fill_spells(old(counts)@, book@),
        distinct_keys(final(counts)@),
        forall|k: Seq<char>|
            #![trigger lookup(final(counts)@, k)]
            lookup(final(counts)@, k) == if has_key(book@, k) {
                Some(k)
            } else {
                lookup(old(counts)@, k)
            },
{
    let ghost old_v = counts@;
    let n = book.len();
    let mut i: usize = 0;
    while i < n
        invariant
            n == book@.len(),
            0 <= i <= n,
            counts@ == fill_spells(old_v, book@.take(i as int)),
            forall|k: Seq<char>|
                #![trigger lookup(counts@, k)]
                lookup(counts@, k) == if has_key(book@.take(i as int), k) {
                    Some(k)
                } else {
                    lookup(old_v, k)
                },
        decreases n - i,
    {
        let (spell, _path) = book.entry(i);
        let letters = letters_of(spell.as_str());
        let ghost before = counts@;
        proof {
            use_type_invariant(&*counts);
            lemma_put(before, spell@, spell@);
        }
        store(counts, spell, letters);
        proof {
            let t = book@.take(i as int);
            let t1 = book@.take(i + 1);
            assert(t1.drop_last() =~= t);
            assert forall|k: Seq<char>| #[trigger] has_key(t1, k) == (has_key(t, k) || k
                == book@[i as int].0) by {
                if has_key(t, k) {
                    let j = index_of(t, k);
                    assert(t1[j].0 == k);
                }
                if k == book@[i as int].0 {
                    assert(t1[i as int].0 == k);
                }
                if has_key(t1, k) && k != book@[i as int].0 {
                    let j = index_of(t1, k);
                    assert(t[j].0 == k);
                }
            }
            assert forall|k: Seq<char>| #[trigger] lookup(counts@, k) == (if has_key(t1, k) {
                Some(k)
            } else {
                lookup(old_v, k)
            }) by {
                if k != spell@ {
                    assert(lookup(counts@, k) == lookup(before, k));
                }
            }
        }
        i = i + 1;
    }
    assert(book@.take(n as int) =~= book@);
    proof {
        use_type_invariant(&*counts);
    }
}

/// Forgets all progress.
pub fn reset_key_count(counts: &mut KeyCounts)
    ensures
        final(counts)@ == Seq::<Entry>::empty(),
        distinct_keys(final(counts)@),
{
    *counts = KeyCounts::new();
}

/// A copy of the progress.
pub fn get_keycount(counts: &KeyCounts) -> (res: KeyCounts)
    ensures
        res@ == counts@,
        distinct_keys(res@),
{
    proof {
        use_type_invariant(counts);
    }
    let mut out: Vec<KeyProgress> = Vec::new();
    let mut i: usize = 0;
    while i < counts.entries.len()
        invariant
            0 <= i <= counts.entries@.len(),
            counts@.len() == counts.entries@.len(),
            progress_views(out@) == counts@.take(i as int),
        decreases counts.entries@.len() - i,
    {
        let e = &counts.entries[i];
        let ghost prev = out@;
        assert(progress_views(prev).len() == prev.len());
        assert(prev.len() == i);
        let item = KeyProgress { spell: e.spell.clone(), remaining: copy_letters(&e.remaining) };
        assert(item.spell@ == counts@[i as int].0 && item.remaining@ == counts@[i as int].1);
        out.push(item);
        assert(out@ == prev.push(item));
        assert forall|j: int| 0 <= j < i + 1 implies #[trigger] progress_views(out@)[j] == counts@[j] by {
            if j < i {
                assert(out@[j] == prev[j]);
                assert(progress_views(prev)[j] == counts@.take(i as int)[j]);
            }
        }
        assert(progress_views(out@) =~= counts@.take(i + 1));
        i = i + 1;
    }
    assert(counts@.take(counts@.len() as int) =~= counts@);
    KeyCounts { entries: out }
}

/// Takes one letter off the entry of `key` (starting an entry, empty, where
/// there is none); where nothing is left after that, the entry starts over
/// with all the letters of `key` and the result is `true`.
pub fn pop_and_refill(counts: &mut KeyCounts, key: &str) -> (finished: bool)
    ensures
        (final(counts)@, finished) == spec_pop_and_refill(old(counts)@, key@),
        distinct_keys(final(counts)@),
        lookup(final(counts)@, key@) == Some(
            advance(
                key@,
                match lookup(old(counts)@, key@) {
                    Some(r) => r,
                    None => Seq::<char>::empty(),
                },
            ).0,
        ),
        forall|k: Seq<char>|
            k != key@ ==> #[trigger] lookup(final(counts)@, k) == lookup(old(counts)@, k),
{
    proof {
        use_type_invariant(&*counts);
    }
    let key_s = String::from_str(key);
    let found = counts.find(&key_s);
    let mut dq: VecDeque<char> = match found {
        Some(i) => {
            proof {
                lemma_index_of_unique(counts@, i as int);
            }
            copy_letters(&counts.entries[i].remaining)
        },
        None => VecDeque::new(),
    };
    let _ = dq.pop_front();
    let finished = if dq.len() == 0 {
        dq = letters_of(key);
        true
    } else {
        false
    };
    let ghost before = counts@;
    store(counts, key_s, dq);
    proof {
        lemma_put(before, key@, dq@);
    }
    finished
}

/// `count_keys` can look up the image of whatever spell the letter finishes.
pub open spec fn count_keys_accepts(counts: Seq<Entry>, book: Seq<Entry>, c: char) -> bool {
    match type_key(counts, c).1 {
        Some(s) => has_key(book, s),
        None => true,
    }
}

/// Takes a typed letter: walks the spells in order, advancing each whose next
/// letter it is and leaving the others as they are. Where the letter finishes
/// a spell, that spell starts over, the walk ends, and the spell's image path
/// is returned.
pub fn count_keys(counts: &mut KeyCounts, book: &SpellBook, typed_key: char) -> (res: Option<
    String,
>)
    requires
        count_keys_accepts(old(counts)@, book@, typed_key),
    ensures
        final(counts)@ == type_key(old(counts)@, typed_key).0,
        distinct_keys(final(counts)@),
        match type_key(old(counts)@, typed_key).1 {
            Some(s) => res matches Some(p) && lookup(book@, s) == Some(p@),
            None => res is None,
        },
{
    let ghost es0 = counts@;
    let mut i: usize = 0;
    while i < counts.entries.len()
        invariant
            0 <= i <= counts@.len(),
            counts@.len() == counts.entries@.len(),
            walk(counts@, typed_key, i as int) == walk(es0, typed_key, 0),
            es0 == old(counts)@,
            count_keys_accepts(es0, book@, typed_key),
        decreases counts@.len() - i,
    {
        proof {
            use_type_invariant(&*counts);
            assert(counts@[i as int] == (
                counts.entries@[i as int].spell@,
                counts.entries@[i as int].remaining@,
            ));
        }
        if counts.entries[i].remaining.len() > 0 {
            let front = counts.entries[i].remaining[0];
            if front == typed_key {
                let spell = counts.entries[i].spell.clone();
                let ghost before = counts@;
                proof {
                    lemma_index_of_unique(before, i as int);
                }
                let finished = pop_and_refill(counts, spell.as_str());
                proof {
                    assert(counts@ =~= before.update(
                        i as int,
                        (before[i as int].0, advance(before[i as int].0, before[i as int].1).0),
                    ));
                }
                if finished {
                    proof {
                        use_type_invariant(&*counts);
                    }
                    return book.get(&spell);
                }
            }
        }
        i = i + 1;
    }
    proof {
        use_type_invariant(&*counts);
    }
    None
}

/// Walks from the same position over entries that agree from there on finish
/// the same spell.
proof fn lemma_walk_result_local(es: Seq<Entry>, fs: Seq<Entry>, c: char, i: int)
    requires
        es.len() == fs.len(),
        0 <= i,
        forall|m: int| i <= m < es.len() ==> #[trigger] es[m] == fs[m],
    ensures
        walk(es, c, i).1 == walk(fs, c, i).1,
    decreases es.len() - i,
{
    if i < es.len() {
        assert(es[i] == fs[i]);
        if es[i].1.len() == 0 || es[i].1[0] != c {
            lemma_walk_result_local(es, fs, c, i + 1);
        } else {
            let next = advance(es[i].0, es[i].1);
            let es2 = es.update(i, (es[i].0, next.0));
            let fs2 = fs.update(i, (fs[i].0, next.0));
            if !next.1 {
                lemma_walk_result_local(es2, fs2, c, i + 1);
            }
        }
    }
}

/// The spell that typing `c` would finish, found without changing anything.
/// A caller can look it up in the spell book before `count_keys`.
pub fn finishing_spell(counts: &KeyCounts, typed_key: char) -> (res: Option<String>)
    ensures
        match type_key(counts@, typed_key).1 {
            Some(s) => res matches Some(p) && p@ == s,
            None => res is None,
        },
{
    let mut i: usize = 0;
    while i < counts.entries.len()
        invariant
            0 <= i <= counts@.len(),
            counts@.len() == counts.entries@.len(),
            walk(counts@, typed_key, i as int).1 == walk(counts@, typed_key, 0).1,
        decreases counts@.len() - i,
    {
        proof {
            assert(counts@[i as int] == (
                counts.entries@[i as int].spell@,
                counts.entries@[i as int].remaining@,
            ));
        }
        let dq = &counts.entries[i].remaining;
        if dq.len() > 0 && dq[0] == typed_key {
            if dq.len() == 1 {
                proof {
                    assert(counts@[i as int].1.drop_first().len() == 0);
                }
                return Some(counts.entries[i].spell.clone());
            }
            proof {
                let es = counts@;
                let next = advance(es[i as int].0, es[i as int].1);
                assert(!next.1);
                let es2 = es.update(i as int, (es[i as int].0, next.0));
                lemma_walk_result_local(es2, es, typed_key, i + 1);
            }
        }
        i = i + 1;
    }
    None
}

} // verus!
