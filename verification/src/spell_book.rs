//! The spell book: which spell brings up which image. It is kept on disk as a
//! JSON object from spell to image path.

use vstd::prelude::*;
use crate::assoc::{
    as_map, distinct_keys, has_key, index_of, lemma_index_of_unique, lemma_lookup_map, lemma_put,
    lookup, put, Entry,
};

verus! {

#[verifier::external_type_specification]
#[verifier::external_body]
pub struct ExJsonError(serde_json::Error);

/// What `serde_json` reads from a JSON text as a map from string to string:
/// the map, or nothing where the text is not such an object.
pub uninterp spec fn json_string_map(text: Seq<char>) -> Option<Map<Seq<char>, Seq<char>>>;

/// The views of a list of string pairs.
pub open spec fn pair_views(ps: Seq<(String, String)>) -> Seq<Entry> {
    ps.map_values(|p: (String, String)| (p.0@, p.1@))
}

/// `serde_json::from_str` into a `HashMap<String, String>`, handed out as its
/// entries. Claimed: on success the entries have distinct keys and stand for
/// the map `json_string_map` names for the text; on failure that name gives
/// nothing. The order of the entries is that in which the map is walked and is
/// not stated.
#[verifier::external_body]
fn parse_string_map(text: &str) -> (res: Result<Vec<(String, String)>, serde_json::Error>)
    ensures
        match res {
            Ok(ps) => {
                &&& distinct_keys(pair_views(ps@))
                &&& json_string_map(text@) == Some(as_map(pair_views(ps@)))
            },
            Err(_) => json_string_map(text@) is None,
        },
{
    match serde_json::from_str::<std::collections::HashMap<String, String>>(text) {
        Ok(m) => Ok(m.into_iter().collect()),
        Err(e) => Err(e),
    }
}

/// `serde_json::to_string_pretty` of the map that the pairs (with distinct
/// keys) form. Claimed: it succeeds, as serde_json documents that it fails
/// only for a map with non-string keys or a `Serialize` impl that fails, and
/// here keys and values are strings; and the text reads back through
/// `serde_json::from_str` as that same map. The order of the keys in the text
/// follows a hash map's walk and is not stated.
#[verifier::external_body]
fn pretty_json(pairs: &Vec<(String, String)>) -> (res: Result<String, serde_json::Error>)
    requires
        distinct_keys(pair_views(pairs@)),
    ensures
        res is Ok,
        res matches Ok(t) ==> json_string_map(t@) == Some(as_map(pair_views(pairs@))),
{
    let m: std::collections::HashMap<&String, &String> = pairs.iter().map(|p| (&p.0, &p.1)).collect();
    serde_json::to_string_pretty(&m)
}

/// Why spell data could not be read or written.
#[derive(Debug, PartialEq, Eq, Structural)]
pub enum ConfigError {
    /// The text is not a JSON object from string to string.
    InvalidJson,
    /// The spell book could not be turned into JSON text.
    Serialize,
}

/// The spell under which the default data keeps its sample image.
pub const DEFAULT_SPELL: &'static str = "cat";

/// Spells and the image path of each; no spell occurs twice.
pub struct SpellBook {
    entries: Vec<(String, String)>,
}

impl View for SpellBook {
    type V = Seq<Entry>;

    closed spec fn view(&self) -> Seq<Entry> {
        pair_views(self.entries@)
    }
}

impl SpellBook {
    #[verifier::type_invariant]
    closed spec fn spells_distinct(&self) -> bool {
        distinct_keys(pair_views(self.entries@))
    }

    /// An empty spell book.
    pub fn new() -> (res: SpellBook)
        ensures
            res@ == Seq::<Entry>::empty(),
    {
        let res = SpellBook { entries: Vec::new() };
        assert(res@ =~= Seq::<Entry>::empty());
        res
    }

    /// The number of spells.
    pub fn len(&self) -> (n: usize)
        ensures
            n == self@.len(),
    {
        self.entries.len()
    }

    /// The entry at position `i`, as (spell, image path).
    pub fn entry(&self, i: usize) -> (res: (String, String))
        requires
            i < self@.len(),
        ensures
            res.0@ == self@[i as int].0,
            res.1@ == self@[i as int].1,
    {
        let p = &self.entries[i];
        (p.0.clone(), p.1.clone())
    }

    /// The position of `spell`, if it is in the book.
    fn find(&self, spell: &String) -> (res: Option<usize>)
        ensures
            match res {
                Some(i) => i < self@.len() && self@[i as int].0 == spell@ && index_of(self@, spell@)
                    == i,
                None => !has_key(self@, spell@),
            },
    {
        proof {
            use_type_invariant(self);
        }
        let mut i: usize = 0;
        while i < self.entries.len()
            invariant
                0 <= i <= self.entries@.len(),
                self@.len() == self.entries@.len(),
                distinct_keys(self@),
                forall|j: int| 0 <= j < i ==> self@[j].0 != spell@,
            decreases self.entries@.len() - i,
        {
            if self.entries[i].0 == *spell {
                proof {
                    lemma_index_of_unique(self@, i as int);
                }
                return Some(i);
            }
            i = i + 1;
        }
        None
    }

    /// The image path of `spell`, if the book has it.
    pub fn get(&self, spell: &String) -> (res: Option<String>)
        ensures
            match res {
                Some(p) => lookup(self@, spell@) == Some(p@),
                None => lookup(self@, spell@) is None,
            },
    {
        match self.find(spell) {
            Some(i) => {
                proof {
                    use_type_invariant(self);
                    lemma_index_of_unique(self@, i as int);
                }
                Some(self.entries[i].1.clone())
            },
            None => None,
        }
    }

    /// Stores `path` under `spell`, replacing what was there (a map insert).
    pub fn insert(&mut self, spell: String, path: String)
        ensures
            final(self)@ == put(old(self)@, spell@, path@),
            as_map(final(self)@) == as_map(old(self)@).insert(spell@, path@),
    {
        proof {
            use_type_invariant(&*self);
        }
        let ghost old_v = self@;
        let found = self.find(&spell);
        proof {
            lemma_put(old_v, spell@, path@);
        }
        let mut es: Vec<(String, String)> = Vec::new();
        std::mem::swap(&mut es, &mut self.entries);
        match found {
            Some(i) => {
                es.set(i, (spell, path));
            },
            None => {
                es.push((spell, path));
            },
        }
        assert(pair_views(es@) =~= put(old_v, spell@, path@));
        self.entries = es;
    }

    /// Replaces the image path of `spell` where the book has it, and reports
    /// whether it did; a spell that is not there is not added.
    pub fn replace_existing(&mut self, spell: String, path: String) -> (replaced: bool)
        ensures
            replaced == has_key(old(self)@, spell@),
            replaced ==> final(self)@ == put(old(self)@, spell@, path@),
            !replaced ==> final(self)@ == old(self)@,
    {
        proof {
            use_type_invariant(&*self);
        }
        let ghost old_v = self@;
        match self.find(&spell) {
            Some(i) => {
                proof {
                    lemma_put(old_v, spell@, path@);
                }
                let mut es: Vec<(String, String)> = Vec::new();
                std::mem::swap(&mut es, &mut self.entries);
                es.set(i, (spell, path));
                assert(pair_views(es@) =~= put(old_v, spell@, path@));
                self.entries = es;
                true
            },
            None => false,
        }
    }

    /// A book holding the given pairs, each stored in turn, so that a later
    /// pair wins over an earlier one with the same spell.
    pub fn from_pairs(pairs: Vec<(String, String)>) -> (res: SpellBook)
        ensures
            res@ == put_all(Seq::empty(), pair_views(pairs@)),
    {
        let mut book = SpellBook::new();
        let mut i: usize = 0;
        while i < pairs.len()
            invariant
                0 <= i <= pairs@.len(),
                book@ == put_all(Seq::empty(), pair_views(pairs@).take(i as int)),
            decreases pairs@.len() - i,
        {
            let p = &pairs[i];
            book.insert(p.0.clone(), p.1.clone());
            assert(pair_views(pairs@).take(i + 1).drop_last() =~= pair_views(pairs@).take(i as int));
            i = i + 1;
        }
        assert(pair_views(pairs@).take(pairs@.len() as int) =~= pair_views(pairs@));
        book
    }

    /// Reads a spell book from JSON text, as the data file holds it.
    pub fn from_json(text: &str) -> (res: Result<SpellBook, ConfigError>)
        ensures
            match json_string_map(text@) {
                Some(m) => res matches Ok(b) && as_map(b@) == m,
                None => res == Err::<SpellBook, ConfigError>(ConfigError::InvalidJson),
            },
    {
        match parse_string_map(text) {
            Ok(pairs) => {
                let ghost pv = pair_views(pairs@);
                let book = SpellBook::from_pairs(pairs);
                proof {
                    lemma_put_all_distinct(pv);
                }
                Ok(book)
            },
            Err(_) => Err(ConfigError::InvalidJson),
        }
    }

    /// The book as pretty-printed JSON text, as the data file holds it: text
    /// that reads back (with `from_json`) as the same map.
    pub fn to_json_pretty(&self) -> (res: Result<String, ConfigError>)
        ensures
            res matches Ok(t) && json_string_map(t@) == Some(as_map(self@)),
    {
        proof {
            use_type_invariant(self);
        }
        match pretty_json(&self.entries) {
            Ok(s) => Ok(s),
            Err(_) => Err(ConfigError::Serialize),
        }
    }
}

/// Storing each entry of `ps` in turn into `es`.
pub open spec fn put_all(es: Seq<Entry>, ps: Seq<Entry>) -> Seq<Entry>
    decreases ps.len(),
{
    if ps.len() == 0 {
        es
    } else {
        put(put_all(es, ps.drop_last()), ps.last().0, ps.last().1)
    }
}

/// Storing entries keeps keys distinct; where the stored entries already have
/// distinct keys, storing them all into nothing gives the same map.
pub proof fn lemma_put_all_distinct(ps: Seq<Entry>)
    requires
        distinct_keys(ps),
    ensures
        distinct_keys(put_all(Seq::empty(), ps)),
        as_map(put_all(Seq::empty(), ps)) == as_map(ps),
    decreases ps.len(),
{
    if ps.len() == 0 {
        assert(as_map(ps) =~= as_map(Seq::<Entry>::empty()));
    } else {
        let init = ps.drop_last();
        assert(distinct_keys(init));
        lemma_put_all_distinct(init);
        lemma_put(put_all(Seq::empty(), init), ps.last().0, ps.last().1);
        lemma_lookup_map(ps);
        lemma_lookup_map(init);
        let n = ps.len() - 1;
        lemma_index_of_unique(ps, n);
        assert forall|k: Seq<char>| #[trigger] as_map(ps).dom().contains(k) == as_map(init).insert(
            ps.last().0,
            ps.last().1,
        ).dom().contains(k) by {
            if has_key(ps, k) && k != ps.last().0 {
                let j = index_of(ps, k);
                assert(init[j].0 == k);
            }
            if has_key(init, k) {
                let j = index_of(init, k);
                assert(ps[j].0 == k);
            }
        }
        assert forall|k: Seq<char>| #[trigger] as_map(ps).dom().contains(k) implies as_map(ps)[k]
            == as_map(init).insert(ps.last().0, ps.last().1)[k] by {
            if k != ps.last().0 {
                let j = index_of(ps, k);
                assert(j != n);
                assert(init[j].0 == k);
                lemma_index_of_unique(init, j);
                lemma_index_of_unique(ps, j);
            }
        }
        assert(as_map(ps) =~= as_map(init).insert(ps.last().0, ps.last().1));
    }
}

/// The spell book of the default data: the sample text read as a spell book,
/// with the sample spell pointed at the image path given (where the sample
/// has that spell).
pub fn default_spell_book(sample_json: &str, image_path: String) -> (res: Result<
    SpellBook,
    ConfigError,
>)
    ensures
        match json_string_map(sample_json@) {
            Some(m) => res matches Ok(b) && as_map(b@) == (if m.dom().contains(DEFAULT_SPELL@) {
                m.insert(DEFAULT_SPELL@, image_path@)
            } else {
                m
            }),
            None => res == Err::<SpellBook, ConfigError>(ConfigError::InvalidJson),
        },
{
    match SpellBook::from_json(sample_json) {
        Ok(mut book) => {
            let ghost before = book@;
            proof {
                use_type_invariant(&book);
                lemma_lookup_map(before);
            }
            let replaced = book.replace_existing(String::from_str(DEFAULT_SPELL), image_path);
            proof {
                if replaced {
                    lemma_put(before, DEFAULT_SPELL@, image_path@);
                }
            }
            Ok(book)
        },
        Err(e) => Err(e),
    }
}

} // verus!
