//! Target definitions and the list of probe vendors.

pub mod definition;
pub mod probe_filters;

use vstd::prelude::*;
use vstd::string::*;

use crate::error::Error;
use crate::json::json_read;
use crate::targets::definition::TargetConfig;
use crate::targets::probe_filters::{
    FilterView, ProbeFilter, filter_views, listed, parse_probe_filters,
};
use crate::text::same_text;

verus! {

/// Short metadata about a target, for listings.
#[derive(Debug)]
pub struct TargetSummary {
    pub id: String,
    pub name: String,
    pub description: String,
    pub capabilities: Vec<String>,
}

impl Clone for TargetSummary {
    fn clone(&self) -> (r: TargetSummary)
        ensures
            r.id == self.id,
            r.name == self.name,
            r.description == self.description,
            r.capabilities@ == self.capabilities@,
    {
        let capabilities = self.capabilities.clone();
        assert(capabilities@ =~= self.capabilities@);
        TargetSummary {
            id: self.id.clone(),
            name: self.name.clone(),
            description: self.description.clone(),
            capabilities,
        }
    }
}

/// Why a target definition could not be had.
#[derive(Debug)]
pub enum AssetError {
    /// There is no such asset.
    Missing { reason: String },
    /// The asset is no target definition.
    Malformed { reason: String },
}

/// The first occurrence of each id that is not empty, in their order.
pub open spec fn distinct(ids: Seq<String>) -> Seq<Seq<char>>
    decreases ids.len(),
{
    if ids.len() == 0 {
        Seq::empty()
    } else {
        let before = distinct(ids.drop_last());
        let id = ids.last()@;
        if id.len() == 0 || before.contains(id) {
            before
        } else {
            before.push(id)
        }
    }
}

/// The characters of each string.
pub open spec fn texts(list: Seq<String>) -> Seq<Seq<char>> {
    Seq::new(list.len(), |i: int| list[i]@)
}

/// Tells whether a list holds a string.
fn holds(list: &Vec<String>, item: &String) -> (r: bool)
    ensures
        r == texts(list@).contains(item@),
{
    let mut i: usize = 0;
    while i < list.len()
        invariant
            i <= list@.len(),
            forall|k: int| 0 <= k < i ==> #[trigger] texts(list@)[k] != item@,
        decreases list@.len() - i,
    {
        if list[i] == *item {
            assert(texts(list@)[i as int] == item@);
            return true;
        }
        i = i + 1;
    }
    false
}

/// Puts the list of target ids in order: each id once, where it occurs first,
/// and no empty one.
pub fn load_index(targets: Vec<String>) -> (r: Vec<String>)
    ensures
        texts(r@) == distinct(targets@),
{
    let mut ids: Vec<String> = Vec::new();
    assert(texts(ids@) =~= Seq::<Seq<char>>::empty());
    assert(targets@.take(0) =~= Seq::<String>::empty());
    for id in it: targets
        invariant
            it.seq() == targets@,
            texts(ids@) == distinct(targets@.take(it.index() as int)),
    {
        let ghost upto = targets@.take(it.index() as int + 1);
        let ghost before = ids@;
        assert(upto.drop_last() =~= targets@.take(it.index() as int));
        assert(upto.last() == id);
        if !same_text(id.as_str(), "") && !holds(&ids, &id) {
            proof {
                reveal_strlit("");
            }
            assert(id@.len() > 0) by {
                if id@.len() == 0 {
                    assert(id@ =~= ""@);
                }
            }
            ids.push(id);
            assert(texts(ids@) =~= texts(before).push(id@));
        } else {
            proof {
                reveal_strlit("");
            }
        }
    }
    assert(targets@.take(targets@.len() as int) =~= targets@);
    ids
}

/// The list of target ids holds no id twice and no empty one, and exactly those
/// that were given.
pub proof fn law_index_is_distinct(ids: Seq<String>)
    ensures
        distinct(ids).no_duplicates(),
        forall|id: Seq<char>| #[trigger]
            distinct(ids).contains(id) <==> id.len() > 0 && texts(ids).contains(id),
    decreases ids.len(),
{
    if ids.len() > 0 {
        let fewer = ids.drop_last();
        let before = distinct(fewer);
        let last = ids.last()@;
        law_index_is_distinct(fewer);
        assert forall|id: Seq<char>| texts(ids).contains(id) <==> texts(fewer).contains(id) || id
            == last by {
            if texts(fewer).contains(id) {
                let i = texts(fewer).index_of(id);
                assert(texts(ids)[i] == id);
            }
            if id == last {
                assert(texts(ids)[ids.len() - 1] == id);
            }
            if texts(ids).contains(id) && id != last {
                let i = texts(ids).index_of(id);
                assert(texts(fewer)[i] == id);
            }
        }
        assert forall|id: Seq<char>| #[trigger] distinct(ids).contains(id) <==> id.len() > 0
            && texts(ids).contains(id) by {
            if distinct(ids) != before {
                let grown = before.push(last);
                if before.contains(id) {
                    let i = before.index_of(id);
                    assert(grown[i] == id);
                }
                assert(grown[before.len() as int] == last);
                if grown.contains(id) && id != last {
                    let i = grown.index_of(id);
                    assert(before[i] == id);
                }
            }
        }
    } else {
        assert(distinct(ids) =~= Seq::<Seq<char>>::empty());
        assert(texts(ids) =~= Seq::<Seq<char>>::empty());
    }
}

/// The path of the asset that holds the definition of a target.
pub fn asset_path(id: &str) -> (r: String)
    ensures
        r@ == id@ + ".json"@,
{
    let mut path = id.to_owned();
    path.append(".json");
    path
}

/// Names the target in the error where its definition could not be had.
pub fn load_target(id: &str, loaded: Result<TargetConfig, AssetError>) -> (r: Result<
    TargetConfig,
    Error,
>)
    ensures
        match loaded {
            Ok(target) => r == Ok::<TargetConfig, Error>(target),
            Err(AssetError::Missing { reason }) => r matches Err(
                Error::UnknownTarget { id: named, reason: told },
            ) && named@ == id@ && told == reason,
            Err(AssetError::Malformed { reason }) => r matches Err(
                Error::InvalidTarget { id: named, reason: told },
            ) && named@ == id@ && told == reason,
        },
{
    match loaded {
        Ok(target) => Ok(target),
        Err(AssetError::Missing { reason }) => Err(
            Error::UnknownTarget { id: id.to_owned(), reason },
        ),
        Err(AssetError::Malformed { reason }) => Err(
            Error::InvalidTarget { id: id.to_owned(), reason },
        ),
    }
}

/// Loads the list of probe vendors. It is empty if the asset is missing or
/// invalid.
pub fn load_probe_filters(asset: Result<String, String>) -> (r: Vec<ProbeFilter>)
    ensures
        filter_views(r@) == (match asset {
            Ok(raw) => match json_read(raw@) {
                Ok(root) => listed(root),
                Err(_) => Seq::empty(),
            },
            Err(_) => Seq::empty(),
        }),
{
    let none: Vec<ProbeFilter> = Vec::new();
    assert(filter_views(none@) =~= Seq::<FilterView>::empty());
    match asset {
        Ok(raw) => match parse_probe_filters(raw.as_str()) {
            Ok(filters) => filters,
            Err(_) => none,
        },
        Err(_) => none,
    }
}

/// The definitions among what was loaded, in their order.
pub open spec fn loaded_of(loaded: Seq<Result<TargetConfig, Error>>) -> Seq<TargetConfig>
    decreases loaded.len(),
{
    if loaded.len() == 0 {
        Seq::empty()
    } else {
        let before = loaded_of(loaded.drop_last());
        match loaded.last() {
            Ok(target) => before.push(target),
            Err(_) => before,
        }
    }
}

impl TargetSummary {
    /// Whether the summary is that of the target.
    pub open spec fn summarizes(self, target: TargetConfig) -> bool {
        &&& self.id == target.id
        &&& self.name == target.name
        &&& self.description@ == (match target.description {
            Some(description) => description@,
            None => Seq::empty(),
        })
        &&& self.capabilities == target.capabilities
    }
}

/// Summarizes the targets that could be loaded. Those that could not are passed
/// over, so that one bad definition does not break the listing.
pub fn list_targets(loaded: Vec<Result<TargetConfig, Error>>) -> (r: Vec<TargetSummary>)
    ensures
        r@.len() == loaded_of(loaded@).len(),
        forall|i: int|
            0 <= i < r@.len() ==> (#[trigger] r@[i]).summarizes(loaded_of(loaded@)[i]),
{
    let mut summaries: Vec<TargetSummary> = Vec::new();
    assert(loaded@.take(0) =~= Seq::<Result<TargetConfig, Error>>::empty());
    for item in it: loaded
        invariant
            it.seq() == loaded@,
            summaries@.len() == loaded_of(loaded@.take(it.index() as int)).len(),
            forall|i: int|
                0 <= i < summaries@.len() ==> (#[trigger] summaries@[i]).summarizes(
                    loaded_of(loaded@.take(it.index() as int))[i],
                ),
    {
        let ghost upto = loaded@.take(it.index() as int + 1);
        assert(upto.drop_last() =~= loaded@.take(it.index() as int));
        assert(upto.last() == item);
        if let Ok(target) = item {
            let description = match target.description {
                Some(description) => description,
                None => String::new(),
            };
            summaries.push(
                TargetSummary {
                    id: target.id,
                    name: target.name,
                    description,
                    capabilities: target.capabilities,
                },
            );
        }
    }
    assert(loaded@.take(loaded@.len() as int) =~= loaded@);
    summaries
}

} // verus!
