//! The key/value record that one parsed section yields, and the selection
//! the caller applies to the parsed sequence.

use vstd::prelude::*;

verus! {

/// The map described by a sequence of key/value pairs; when a key occurs
/// more than once, the later pair wins.
pub open spec fn pairs_to_map(ps: Seq<(Seq<char>, Seq<char>)>) -> Map<Seq<char>, Seq<char>>
    decreases ps.len(),
{
    if ps.len() == 0 {
        Map::empty()
    } else {
        pairs_to_map(ps.drop_last()).insert(ps.last().0, ps.last().1)
    }
}

/// The view of each entry: both strings as character sequences.
pub open spec fn entry_views(ps: Seq<(String, String)>) -> Seq<(Seq<char>, Seq<char>)> {
    ps.map_values(|p: (String, String)| (p.0@, p.1@))
}

/// One parsed section: a mapping from key to value.  Abstractly a table is
/// the map alone; which entry put a binding there is not observable.
#[derive(Debug)]
pub struct BCDTable {
    entries: Vec<(String, String)>,
}

impl View for BCDTable {
    type V = Map<Seq<char>, Seq<char>>;

    closed spec fn view(&self) -> Map<Seq<char>, Seq<char>> {
        pairs_to_map(entry_views(self.entries@))
    }
}

/// A pair sequence with no later occurrence of the key at `idx` maps that
/// key to the value at `idx`.
proof fn lemma_pairs_to_map_at(ps: Seq<(Seq<char>, Seq<char>)>, idx: int)
    requires
        0 <= idx < ps.len(),
        forall|j: int| idx < j < ps.len() ==> ps[j].0 != ps[idx].0,
    ensures
        pairs_to_map(ps).contains_key(ps[idx].0),
        pairs_to_map(ps)[ps[idx].0] == ps[idx].1,
    decreases ps.len(),
{
    if idx < ps.len() - 1 {
        assert(ps.drop_last()[idx] == ps[idx]);
        lemma_pairs_to_map_at(ps.drop_last(), idx);
    }
}

/// A key that no pair carries is not in the map.
proof fn lemma_pairs_to_map_absent(ps: Seq<(Seq<char>, Seq<char>)>, k: Seq<char>)
    requires
        forall|j: int| 0 <= j < ps.len() ==> ps[j].0 != k,
    ensures
        !pairs_to_map(ps).contains_key(k),
    decreases ps.len(),
{
    if ps.len() > 0 {
        lemma_pairs_to_map_absent(ps.drop_last(), k);
    }
}

impl BCDTable {
    /// A table with no bindings yet.
    pub fn new() -> (r: BCDTable)
        ensures
            r@ == Map::<Seq<char>, Seq<char>>::empty(),
    {
        BCDTable { entries: Vec::new() }
    }

    /// Bind `key` to `value`, replacing whatever the table held for it.
    pub fn insert(&mut self, key: String, value: String)
        ensures
            final(self)@ == old(self)@.insert(key@, value@),
    {
        let ghost before = entry_views(self.entries@);
        self.entries.push((key, value));
        proof {
            let after = entry_views(self.entries@);
            assert(after.drop_last() =~= before);
            assert(after.last() == (key@, value@));
        }
    }

    /// The value bound to `key`, when the table holds one.
    pub fn get(&self, key: &str) -> (r: Option<&String>)
        ensures
            match r {
                Some(v) => self@.contains_key(key@) && v@ == self@[key@],
                None => !self@.contains_key(key@),
            },
    {
        let wanted: String = key.to_owned();
        let ghost ps = entry_views(self.entries@);
        let mut i: usize = self.entries.len();
        while i > 0
            invariant
                i <= self.entries.len(),
                wanted@ == key@,
                ps == entry_views(self.entries@),
                forall|j: int| i <= j < ps.len() ==> ps[j].0 != key@,
            decreases i,
        {
            i = i - 1;
            if self.entries[i].0 == wanted {
                proof {
                    lemma_pairs_to_map_at(ps, i as int);
                }
                return Some(&self.entries[i].1);
            }
            assert(ps[i as int].0 != key@);
        }
        proof {
            lemma_pairs_to_map_absent(ps, key@);
        }
        None
    }

    /// Whether the table holds a binding for `key`.
    pub fn contains_key(&self, key: &str) -> (r: bool)
        ensures
            r == self@.contains_key(key@),
    {
        self.get(key).is_some()
    }
}

/// The test the caller applies to a parsed table: only one that names both
/// a description and an identifier is a boot-menu candidate.
pub open spec fn is_boot_entry(m: Map<Seq<char>, Seq<char>>) -> bool {
    m.contains_key("description"@) && m.contains_key("identifier"@)
}

/// The views of a sequence of tables.
pub open spec fn tables_view(ts: Seq<BCDTable>) -> Seq<Map<Seq<char>, Seq<char>>> {
    ts.map_values(|t: BCDTable| t@)
}

/// The subsequence of boot-menu candidates among the given table maps,
/// in their order.
pub open spec fn boot_entry_tables(ms: Seq<Map<Seq<char>, Seq<char>>>) -> Seq<
    Map<Seq<char>, Seq<char>>,
> {
    ms.filter(|m: Map<Seq<char>, Seq<char>>| is_boot_entry(m))
}

/// Keep exactly the tables that are boot-menu candidates, in their order:
/// a table lacking a description or an identifier is dropped, not an error.
pub fn filter_boot_entries(tables: Vec<BCDTable>) -> (r: Vec<BCDTable>)
    ensures
        tables_view(r@) == boot_entry_tables(tables_view(tables@)),
{
    let ghost all = tables_view(tables@);
    let mut rest = tables;
    let mut kept: Vec<BCDTable> = Vec::new();
    proof {
        assert(tables_view(rest@) =~= all.skip(0));
    }
    while rest.len() > 0
        invariant
            tables_view(rest@) == all.skip(all.len() - rest@.len()),
            rest@.len() <= all.len(),
            tables_view(kept@) == boot_entry_tables(all.take(all.len() - rest@.len())),
        decreases rest.len(),
    {
        let ghost done = all.len() - rest@.len();
        let ghost rv = rest@;
        let t = rest.remove(0);
        proof {
            assert(tables_view(rv)[0] == rv[0]@);
            assert(tables_view(rv)[0] == all.skip(done)[0]);
            assert(t@ == all[done]);
            assert forall|j: int| 0 <= j < rest@.len() implies tables_view(rest@)[j] == all.skip(
                done + 1,
            )[j] by {
                assert(rest@[j] == rv[j + 1]);
                assert(tables_view(rv)[j + 1] == rv[j + 1]@);
                assert(tables_view(rv)[j + 1] == all.skip(done)[j + 1]);
            }
            assert(tables_view(rest@) =~= all.skip(done + 1));
        }
        let ghost tv = t@;
        let has_description = t.contains_key("description");
        let has_identifier = t.contains_key("identifier");
        if has_description && has_identifier {
            proof {
                assert(is_boot_entry(tv));
            }
            kept.push(t);
            proof {
                reveal(Seq::filter);
                assert(all.take(done + 1).drop_last() =~= all.take(done));
                assert(all.take(done + 1).last() == all[done]);
                assert(tables_view(kept@) =~= boot_entry_tables(all.take(done)).push(tv));
                assert(tables_view(kept@) =~= boot_entry_tables(all.take(done + 1)));
            }
        } else {
            proof {
                reveal(Seq::filter);
                assert(!is_boot_entry(tv));
                assert(all.take(done + 1).drop_last() =~= all.take(done));
                assert(all.take(done + 1).last() == all[done]);
                assert(tables_view(kept@) =~= boot_entry_tables(all.take(done + 1)));
            }
        }
    }
    proof {
        assert(all.take(all.len() as int) =~= all);
    }
    kept
}

} // verus!
