//! The catalog: the description-to-emoji-text mapping built from scanned
//! records.
//!
//! A literal record binds its description directly; a range record binds one
//! key per member, `<description>-<index>`, walking the range upward. Keys
//! are unique within the catalog: a later insertion of an existing key
//! silently overwrites the earlier binding, which across two data files
//! means the later file wins.

use vstd::map::*;
use vstd::prelude::*;

use crate::hex::is_scalar_value;
use crate::scanner::{
    spec_scan_text, views_of, Emoji, EmojiView, Scanner, Sequence, SequenceView,
};
use crate::text::{chars_of, dec_chars, dec_rep, eq_chars, string_of, trim_range, trimmed};

verus! {

/// One catalog entry: a key and the emoji text bound to it.
pub struct Entry {
    pub key: String,
    pub text: String,
}

/// Applies a list of key/value pairs to a map, in order: later pairs win.
pub open spec fn apply_entries(
    m: Map<Seq<char>, Seq<char>>,
    es: Seq<(Seq<char>, Seq<char>)>,
) -> Map<Seq<char>, Seq<char>>
    decreases es.len(),
{
    if es.len() == 0 {
        m
    } else {
        apply_entries(m.insert(es[0].0, es[0].1), es.drop_first())
    }
}

/// The value carried by the last pair holding key `k`, if any pair does.
pub open spec fn lookup_entries(
    es: Seq<(Seq<char>, Seq<char>)>,
    k: Seq<char>,
) -> Option<Seq<char>>
    decreases es.len(),
{
    if es.len() == 0 {
        None
    } else {
        match lookup_entries(es.drop_first(), k) {
            Some(v) => Some(v),
            None => if es[0].0 == k {
                Some(es[0].1)
            } else {
                None
            },
        }
    }
}

/// The key of one range member: the description, a dash, and the member's
/// index in decimal.
pub open spec fn range_key(desc: Seq<char>, idx: int) -> Seq<char> {
    desc + seq!['-'] + dec_rep(idx as nat)
}

/// The entries one range record contributes: the scalar values of
/// `lo..=hi` upward, skipping the surrogate block, numbered from `idx` on.
pub open spec fn range_entries(desc: Seq<char>, lo: int, hi: int, idx: int) -> Seq<
    (Seq<char>, Seq<char>),
>
    decreases hi + 1 - lo,
{
    if lo > hi {
        Seq::empty()
    } else if !is_scalar_value(lo) {
        range_entries(desc, lo + 1, hi, idx)
    } else {
        seq![(range_key(desc, idx), seq![(lo as u32) as char])] + range_entries(
            desc,
            lo + 1,
            hi,
            idx + 1,
        )
    }
}

/// The entries one record contributes.
pub open spec fn record_entries(r: EmojiView) -> Seq<(Seq<char>, Seq<char>)> {
    match r.sequence {
        SequenceView::Literal { text } => seq![(r.description, text)],
        SequenceView::Range { low, high } => range_entries(
            r.description,
            low as int,
            high as int,
            0,
        ),
    }
}

/// The entries a list of records contributes, in order.
pub open spec fn records_entries(rs: Seq<EmojiView>) -> Seq<(Seq<char>, Seq<char>)>
    decreases rs.len(),
{
    if rs.len() == 0 {
        Seq::empty()
    } else {
        record_entries(rs[0]) + records_entries(rs.drop_first())
    }
}

/// The catalog after inserting the entries of the records `rs`, in order,
/// into `m`.
pub open spec fn catalog_after(
    m: Map<Seq<char>, Seq<char>>,
    rs: Seq<EmojiView>,
) -> Map<Seq<char>, Seq<char>> {
    apply_entries(m, records_entries(rs))
}

/// What applying a list of pairs does, key by key: the last pair holding the
/// key wins, and keys no pair holds keep their old binding.
pub proof fn lemma_apply_entries(
    m: Map<Seq<char>, Seq<char>>,
    es: Seq<(Seq<char>, Seq<char>)>,
    k: Seq<char>,
)
    ensures
        lookup_entries(es, k) matches Some(v) ==> apply_entries(m, es).contains_key(k)
            && apply_entries(m, es)[k] == v,
        lookup_entries(es, k) is None ==> (apply_entries(m, es).contains_key(k) <==> m.contains_key(
            k,
        )),
        lookup_entries(es, k) is None && m.contains_key(k) ==> apply_entries(m, es)[k] == m[k],
    decreases es.len(),
{
    if es.len() > 0 {
        lemma_apply_entries(m.insert(es[0].0, es[0].1), es.drop_first(), k);
    }
}

/// Applying concatenated pair lists is applying them one after the other.
pub proof fn lemma_apply_entries_append(
    m: Map<Seq<char>, Seq<char>>,
    a: Seq<(Seq<char>, Seq<char>)>,
    b: Seq<(Seq<char>, Seq<char>)>,
)
    ensures
        apply_entries(m, a + b) == apply_entries(apply_entries(m, a), b),
    decreases a.len(),
{
    if a.len() == 0 {
        assert(a + b =~= b);
    } else {
        assert((a + b).drop_first() =~= a.drop_first() + b);
        assert((a + b)[0] == a[0]);
        lemma_apply_entries_append(m.insert(a[0].0, a[0].1), a.drop_first(), b);
    }
}

/// The entries of concatenated record lists are the concatenated entries.
pub proof fn lemma_records_entries_append(a: Seq<EmojiView>, b: Seq<EmojiView>)
    ensures
        records_entries(a + b) == records_entries(a) + records_entries(b),
    decreases a.len(),
{
    if a.len() == 0 {
        assert(a + b =~= b);
        assert(records_entries(a) + records_entries(b) =~= records_entries(b));
    } else {
        assert((a + b).drop_first() =~= a.drop_first() + b);
        assert((a + b)[0] == a[0]);
        lemma_records_entries_append(a.drop_first(), b);
        assert(record_entries(a[0]) + (records_entries(a.drop_first()) + records_entries(b)) =~= (
        record_entries(a[0]) + records_entries(a.drop_first())) + records_entries(b));
    }
}

/// Applying the same pair list twice gives the catalog of applying it once:
/// the second pass only overwrites bindings with the values they already
/// hold.
pub proof fn lemma_apply_entries_twice(
    m: Map<Seq<char>, Seq<char>>,
    es: Seq<(Seq<char>, Seq<char>)>,
)
    ensures
        apply_entries(m, es + es) == apply_entries(m, es),
{
    lemma_apply_entries_append(m, es, es);
    let m1 = apply_entries(m, es);
    let m2 = apply_entries(m1, es);
    assert_maps_equal!(m2, m1, k => {
        lemma_apply_entries(m, es, k);
        lemma_apply_entries(m1, es, k);
    });
}

/// Scanning the same file content twice and merging both record lists into a
/// fresh catalog yields exactly the catalog of scanning it once.
pub proof fn lemma_rescan_idempotent(t: Seq<char>)
    ensures
        catalog_after(
            Map::<Seq<char>, Seq<char>>::empty(),
            spec_scan_text(t) + spec_scan_text(t),
        ) == catalog_after(Map::<Seq<char>, Seq<char>>::empty(), spec_scan_text(t)),
{
    let rs = spec_scan_text(t);
    lemma_records_entries_append(rs, rs);
    lemma_apply_entries_twice(Map::<Seq<char>, Seq<char>>::empty(), records_entries(rs));
}

/// Across two files the later file wins: when the second file's records bind
/// `k`, the built catalog maps `k` to the last value they give it, whatever
/// the first file said.
pub proof fn lemma_later_file_wins(a: Seq<char>, b: Seq<char>, k: Seq<char>)
    requires
        lookup_entries(records_entries(spec_scan_text(b)), k) is Some,
    ensures
        ({
            let m = catalog_after(
                catalog_after(Map::<Seq<char>, Seq<char>>::empty(), spec_scan_text(a)),
                spec_scan_text(b),
            );
            &&& m.contains_key(k)
            &&& Some(m[k]) == lookup_entries(records_entries(spec_scan_text(b)), k)
        }),
{
    lemma_apply_entries(
        catalog_after(Map::<Seq<char>, Seq<char>>::empty(), spec_scan_text(a)),
        records_entries(spec_scan_text(b)),
        k,
    );
}

proof fn lemma_lookup_entries_absent(es: Seq<(Seq<char>, Seq<char>)>, k: Seq<char>)
    requires
        forall|m: int| 0 <= m < es.len() ==> es[m].0 != k,
    ensures
        lookup_entries(es, k) is None,
    decreases es.len(),
{
    if es.len() > 0 {
        assert forall|m: int| 0 <= m < es.drop_first().len() implies es.drop_first()[m].0 != k by {
            assert(es.drop_first()[m] == es[m + 1]);
        }
        lemma_lookup_entries_absent(es.drop_first(), k);
    }
}

proof fn lemma_lookup_entries_unique(es: Seq<(Seq<char>, Seq<char>)>, k: Seq<char>, j: int)
    requires
        0 <= j < es.len(),
        es[j].0 == k,
        forall|p: int, q: int| 0 <= p < q < es.len() ==> es[p].0 != es[q].0,
    ensures
        lookup_entries(es, k) == Some(es[j].1),
    decreases es.len(),
{
    let rest = es.drop_first();
    if j == 0 {
        assert forall|m: int| 0 <= m < rest.len() implies rest[m].0 != k by {
            assert(rest[m] == es[m + 1]);
        }
        lemma_lookup_entries_absent(rest, k);
    } else {
        assert(rest[j - 1] == es[j]);
        assert forall|p: int, q: int| 0 <= p < q < rest.len() implies rest[p].0 != rest[q].0 by {
            assert(rest[p] == es[p + 1]);
            assert(rest[q] == es[q + 1]);
        }
        lemma_lookup_entries_unique(rest, k, j - 1);
    }
}

/// The description-to-emoji-text catalog.
pub struct Catalog {
    entries: Vec<Entry>,
}

impl View for Catalog {
    type V = Map<Seq<char>, Seq<char>>;

    closed spec fn view(&self) -> Map<Seq<char>, Seq<char>> {
        apply_entries(Map::<Seq<char>, Seq<char>>::empty(), self.pairs())
    }
}

impl Catalog {
    /// The key/value pairs held, in insertion order.
    pub closed spec fn pairs(&self) -> Seq<(Seq<char>, Seq<char>)> {
        self.entries@.map_values(|e: Entry| (e.key@, e.text@))
    }

    /// Keys are unique: inserting an existing key overwrites in place.
    pub closed spec fn wf(&self) -> bool {
        forall|p: int, q: int|
            0 <= p < q < self.pairs().len() ==> self.pairs()[p].0 != self.pairs()[q].0
    }

    /// The empty catalog.
    pub fn new() -> (c: Catalog)
        ensures
            c.wf(),
            c@ == Map::<Seq<char>, Seq<char>>::empty(),
            c.pairs() == Seq::<(Seq<char>, Seq<char>)>::empty(),
    {
        let c = Catalog { entries: Vec::new() };
        proof {
            assert(c.pairs() =~= Seq::<(Seq<char>, Seq<char>)>::empty());
        }
        c
    }

    /// Number of entries held.
    pub fn len(&self) -> (n: usize)
        ensures
            n == self.pairs().len(),
    {
        self.entries.len()
    }

    /// The key of the entry at position `i`, in insertion order.
    pub fn key_at(&self, i: usize) -> (k: String)
        requires
            i < self.pairs().len(),
        ensures
            k@ == self.pairs()[i as int].0,
    {
        self.entries[i].key.clone()
    }

    /// The text of the entry at position `i`, in insertion order.
    pub fn text_at(&self, i: usize) -> (t: String)
        requires
            i < self.pairs().len(),
        ensures
            t@ == self.pairs()[i as int].1,
    {
        self.entries[i].text.clone()
    }

    /// Position of the entry holding `kv` as its key, or the length when no
    /// entry does.
    fn find_index(&self, kv: &Vec<char>) -> (i: usize)
        ensures
            i <= self.pairs().len(),
            i < self.pairs().len() ==> self.pairs()[i as int].0 == kv@,
            i == self.pairs().len() ==> forall|m: int|
                0 <= m < self.pairs().len() ==> self.pairs()[m].0 != kv@,
    {
        let n = self.entries.len();
        let mut i: usize = 0;
        while i < n
            invariant
                n == self.entries@.len(),
                0 <= i <= n,
                forall|m: int| 0 <= m < i ==> self.pairs()[m].0 != kv@,
            decreases n - i,
        {
            let ev = chars_of(self.entries[i].key.as_str());
            if eq_chars(&ev, kv) {
                return i;
            }
            i = i + 1;
        }
        i
    }

    /// Binds `key` to `text`: overwrites in place when the key is present,
    /// appends otherwise.
    pub fn insert(&mut self, key: String, text: String)
        requires
            old(self).wf(),
        ensures
            final(self).wf(),
            final(self)@ == old(self)@.insert(key@, text@),
    {
        let kv = chars_of(key.as_str());
        let i = self.find_index(&kv);
        let n = self.entries.len();
        let ghost old_pairs = self.pairs();
        let e = Entry { key, text };
        let ghost pair = (e.key@, e.text@);
        if i < n {
            let _replaced = self.entries.remove(i);
            self.entries.insert(i, e);
            proof {
                assert(self.pairs() =~= old_pairs.update(i as int, pair));
            }
        } else {
            self.entries.push(e);
            proof {
                assert(self.pairs() =~= old_pairs.push(pair));
            }
        }
        proof {
            let new_pairs = self.pairs();
            let k = pair.0;
            assert forall|p: int, q: int|
                0 <= p < q < new_pairs.len() implies new_pairs[p].0 != new_pairs[q].0 by {
                if i < n {
                    assert(new_pairs[p].0 == old_pairs[p].0);
                    assert(new_pairs[q].0 == old_pairs[q].0);
                } else {
                    if q < new_pairs.len() - 1 {
                        assert(new_pairs[p].0 == old_pairs[p].0);
                        assert(new_pairs[q].0 == old_pairs[q].0);
                    } else {
                        assert(new_pairs[p].0 == old_pairs[p].0);
                        assert(new_pairs[q].0 == k);
                    }
                }
            }
            assert_maps_equal!(apply_entries(Map::<Seq<char>, Seq<char>>::empty(), new_pairs),
                apply_entries(Map::<Seq<char>, Seq<char>>::empty(), old_pairs).insert(k, pair.1),
                q => {
                lemma_apply_entries(Map::<Seq<char>, Seq<char>>::empty(), new_pairs, q);
                lemma_apply_entries(Map::<Seq<char>, Seq<char>>::empty(), old_pairs, q);
                if q == k {
                    if i < n {
                        lemma_lookup_entries_unique(new_pairs, q, i as int);
                    } else {
                        lemma_lookup_entries_unique(new_pairs, q, new_pairs.len() - 1);
                    }
                } else {
                    if exists|j: int| 0 <= j < old_pairs.len() && old_pairs[j].0 == q {
                        let j = choose|j: int| 0 <= j < old_pairs.len() && old_pairs[j].0 == q;
                        lemma_lookup_entries_unique(old_pairs, q, j);
                        lemma_lookup_entries_unique(new_pairs, q, j);
                    } else {
                        lemma_lookup_entries_absent(old_pairs, q);
                        assert forall|m: int|
                            0 <= m < new_pairs.len() implies new_pairs[m].0 != q by {
                            if i < n || m < new_pairs.len() - 1 {
                                assert(new_pairs[m].0 == old_pairs[m].0);
                            }
                        }
                        lemma_lookup_entries_absent(new_pairs, q);
                    }
                }
            });
        }
    }

    /// Looks the exact key up.
    pub fn lookup(&self, key: &str) -> (r: Option<String>)
        requires
            self.wf(),
        ensures
            r is Some <==> self@.contains_key(key@),
            r matches Some(t) ==> self@.contains_key(key@) && t@ == self@[key@],
    {
        let kv = chars_of(key);
        let i = self.find_index(&kv);
        let n = self.entries.len();
        if i < n {
            let t = self.entries[i].text.clone();
            proof {
                lemma_lookup_entries_unique(self.pairs(), key@, i as int);
                lemma_apply_entries(Map::<Seq<char>, Seq<char>>::empty(), self.pairs(), key@);
            }
            Some(t)
        } else {
            proof {
                lemma_lookup_entries_absent(self.pairs(), key@);
                lemma_apply_entries(Map::<Seq<char>, Seq<char>>::empty(), self.pairs(), key@);
            }
            None
        }
    }

    /// Looks a raw selection up after trimming it, as the interactive picker
    /// hands it back.
    pub fn select(&self, selection: &str) -> (r: Option<String>)
        requires
            self.wf(),
        ensures
            r is Some <==> self@.contains_key(trimmed(selection@)),
            r matches Some(t) ==> self@.contains_key(trimmed(selection@)) && t@ == self@[trimmed(
                selection@,
            )],
    {
        let v = chars_of(selection);
        let t = trim_range(&v, 0, v.len());
        proof {
            assert(v@.subrange(0, v@.len() as int) =~= v@);
        }
        let s = string_of(&t);
        self.lookup(s.as_str())
    }

    /// Inserts the entries of one record: a literal directly under its
    /// description, a range member by member under indexed keys.
    pub fn add_record(&mut self, em: &Emoji)
        requires
            old(self).wf(),
        ensures
            final(self).wf(),
            final(self)@ == apply_entries(old(self)@, record_entries(em@)),
    {
        match &em.sequence {
            Sequence::Literal(text) => {
                let ghost m0 = self@;
                self.insert(em.description.clone(), text.clone());
                proof {
                    let es = record_entries(em@);
                    assert(es == seq![(em.description@, text@)]);
                    assert(es[0] == (em.description@, text@));
                    assert(es.drop_first() =~= Seq::<(Seq<char>, Seq<char>)>::empty());
                    assert(apply_entries(m0, es) == apply_entries(
                        m0.insert(em.description@, text@),
                        es.drop_first(),
                    ));
                    assert(apply_entries(
                        m0.insert(em.description@, text@),
                        Seq::<(Seq<char>, Seq<char>)>::empty(),
                    ) == m0.insert(em.description@, text@));
                }
            },
            Sequence::Range(low, high) => {
                let lo32: u32 = *low as u32;
                let hi32: u32 = *high as u32;
                let ghost m0 = self@;
                let ghost desc = em.description@;
                let mut cp: u32 = lo32;
                let mut idx: usize = 0;
                proof {
                    vstd::utf8::char_is_scalar(*low);
                    vstd::utf8::char_is_scalar(*high);
                }
                while cp <= hi32
                    invariant
                        self.wf(),
                        hi32 <= 0x10FFFF,
                        idx as int <= cp as int,
                        desc == em.description@,
                        apply_entries(m0, range_entries(desc, lo32 as int, hi32 as int, 0))
                            == apply_entries(
                            self@,
                            range_entries(desc, cp as int, hi32 as int, idx as int),
                        ),
                    decreases hi32 + 1 - cp,
                {
                    match char::from_u32(cp) {
                        Some(c) => {
                            let mut kv = chars_of(em.description.as_str());
                            kv.push('-');
                            let mut dv = dec_chars(idx);
                            kv.append(&mut dv);
                            let kstr = string_of(&kv);
                            let mut tv: Vec<char> = Vec::new();
                            tv.push(c);
                            let tstr = string_of(&tv);
                            let ghost before = self@;
                            proof {
                                vstd::utf8::char_u32_cast(c, cp);
                                assert(kv@ =~= range_key(desc, idx as int));
                                assert(tv@ =~= seq![((cp as int) as u32) as char]);
                                let es = range_entries(desc, cp as int, hi32 as int, idx as int);
                                assert(es == seq![(range_key(desc, idx as int), seq![((cp as int) as u32) as char])]
                                    + range_entries(desc, cp as int + 1, hi32 as int, idx as int + 1));
                                assert(es[0] == (range_key(desc, idx as int), seq![((cp as int) as u32) as char]));
                                assert(es.drop_first() =~= range_entries(desc, cp as int + 1, hi32 as int, idx as int + 1));
                                assert(apply_entries(before, es) == apply_entries(
                                    before.insert(kv@, tv@),
                                    range_entries(desc, cp as int + 1, hi32 as int, idx as int + 1),
                                ));
                            }
                            self.insert(kstr, tstr);
                            idx = idx + 1;
                        },
                        None => {
                            proof {
                                assert(!is_scalar_value(cp as int));
                                assert(range_entries(desc, cp as int, hi32 as int, idx as int)
                                    == range_entries(desc, cp as int + 1, hi32 as int, idx as int));
                            }
                        },
                    }
                    cp = cp + 1;
                }
                proof {
                    assert(range_entries(desc, cp as int, hi32 as int, idx as int) =~= Seq::<
                        (Seq<char>, Seq<char>),
                    >::empty());
                    assert(apply_entries(self@, Seq::<(Seq<char>, Seq<char>)>::empty()) == self@);
                    assert(record_entries(em@) == range_entries(desc, lo32 as int, hi32 as int, 0));
                }
            },
        }
    }

    /// Inserts the entries of every record, in order.
    pub fn extend(&mut self, records: &Vec<Emoji>)
        requires
            old(self).wf(),
        ensures
            final(self).wf(),
            final(self)@ == catalog_after(old(self)@, views_of(records@)),
    {
        let ghost m0 = self@;
        let ghost rs = views_of(records@);
        let n = records.len();
        let mut i: usize = 0;
        proof {
            assert(rs.skip(0) =~= rs);
        }
        while i < n
            invariant
                self.wf(),
                n == records@.len(),
                rs == views_of(records@),
                0 <= i <= n,
                catalog_after(m0, rs) == catalog_after(self@, rs.skip(i as int)),
            decreases n - i,
        {
            let em = &records[i];
            let ghost before = self@;
            self.add_record(em);
            proof {
                let suffix = rs.skip(i as int);
                assert(suffix[0] == em@);
                assert(suffix.drop_first() =~= rs.skip(i as int + 1));
                assert(records_entries(suffix) == record_entries(em@) + records_entries(
                    rs.skip(i as int + 1),
                ));
                lemma_apply_entries_append(
                    before,
                    record_entries(em@),
                    records_entries(rs.skip(i as int + 1)),
                );
            }
            i = i + 1;
        }
        proof {
            assert(rs.skip(n as int) =~= Seq::<EmojiView>::empty());
            assert(records_entries(Seq::<EmojiView>::empty()) == Seq::<
                (Seq<char>, Seq<char>),
            >::empty());
            assert(apply_entries(self@, Seq::<(Seq<char>, Seq<char>)>::empty()) == self@);
        }
    }

    /// Builds the catalog for a primary data file and a ZWJ data file: the
    /// first file's records in order, then the second file's, later
    /// insertions winning on key collisions.
    pub fn from_texts(scanner: &Scanner, primary: &str, zwj: &str) -> (c: Catalog)
        ensures
            c.wf(),
            c@ == catalog_after(
                catalog_after(Map::<Seq<char>, Seq<char>>::empty(), spec_scan_text(primary@)),
                spec_scan_text(zwj@),
            ),
            c@ == catalog_after(
                Map::<Seq<char>, Seq<char>>::empty(),
                spec_scan_text(primary@) + spec_scan_text(zwj@),
            ),
    {
        let mut c = Catalog::new();
        let a = scanner.emoji(primary);
        c.extend(&a);
        let b = scanner.emoji(zwj);
        c.extend(&b);
        proof {
            lemma_records_entries_append(spec_scan_text(primary@), spec_scan_text(zwj@));
            lemma_apply_entries_append(
                Map::<Seq<char>, Seq<char>>::empty(),
                records_entries(spec_scan_text(primary@)),
                records_entries(spec_scan_text(zwj@)),
            );
        }
        c
    }
}

} // verus!
