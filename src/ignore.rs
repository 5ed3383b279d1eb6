use vstd::prelude::*;

use crate::crates::FeatureError;

verus! {

/// The strings among `items`, in order; other values are skipped.
pub open spec fn strings_of(items: Seq<Option<String>>) -> Seq<Seq<char>>
    decreases items.len(),
{
    if items.len() == 0 {
        Seq::empty()
    } else {
        match items.last() {
            Some(s) => strings_of(items.drop_last()).push(s@),
            None => strings_of(items.drop_last()),
        }
    }
}

fn collect_strings(items: &Vec<Option<String>>) -> (r: Vec<String>)
    ensures
        r@.map_values(|s: String| s@) == strings_of(items@),
{
    let mut out: Vec<String> = Vec::new();
    let mut k: usize = 0;
    assert(items@.take(0) =~= Seq::<Option<String>>::empty());
    while k < items.len()
        invariant
            k <= items@.len(),
            out@.map_values(|s: String| s@) == strings_of(items@.take(k as int)),
        decreases items@.len() - k,
    {
        assert(items@.take(k + 1).drop_last() =~= items@.take(k as int));
        assert(items@.take(k + 1).last() == items@[k as int]);
        match &items[k] {
            Some(s) => {
                let ghost prev = out@;
                out.push(s.clone());
                assert(out@.map_values(|s: String| s@) =~= prev.map_values(|s: String| s@).push(s@));
            },
            None => {},
        }
        k = k + 1;
    }
    assert(items@.take(items@.len() as int) =~= items@);
    out
}

/// Builds the ignore list from the entries of its file: each dependency
/// name with its value, which must be a list (`None` where it is not);
/// entries of a list that are not strings are skipped.
pub fn parse_ignore_list(entries: Vec<(String, Option<Vec<Option<String>>>)>) -> (r: Result<
    Vec<(String, Vec<String>)>,
    FeatureError,
>)
    ensures
        r is Err <==> exists|i: int| 0 <= i < entries@.len() && (#[trigger] entries@[i]).1 is None,
        r is Err ==> r == Err::<Vec<(String, Vec<String>)>, FeatureError>(
            FeatureError::IgnoreListMalformed,
        ),
        r matches Ok(v) ==> v@.len() == entries@.len() && forall|i: int|
            0 <= i < v@.len() ==> (#[trigger] v@[i]).0@ == entries@[i].0@ && v@[i].1@.map_values(
                |s: String| s@,
            ) == strings_of(entries@[i].1->0@),
{
    let mut out: Vec<(String, Vec<String>)> = Vec::new();
    let mut i: usize = 0;
    while i < entries.len()
        invariant
            i <= entries@.len(),
            out@.len() == i,
            forall|m: int| 0 <= m < i ==> (#[trigger] entries@[m]).1 is Some,
            forall|m: int|
                0 <= m < i ==> (#[trigger] out@[m]).0@ == entries@[m].0@ && out@[m].1@.map_values(
                    |s: String| s@,
                ) == strings_of(entries@[m].1->0@),
        decreases entries@.len() - i,
    {
        match &entries[i].1 {
            Some(items) => {
                let names = collect_strings(items);
                out.push((entries[i].0.clone(), names));
            },
            None => {
                return Err(FeatureError::IgnoreListMalformed);
            },
        }
        i = i + 1;
    }
    Ok(out)
}

/// The protected features of the dependency `name`: the list of the first
/// entry for it, or nothing.
pub fn ignored_for(list: &Vec<(String, Vec<String>)>, name: &String) -> (r: Vec<String>)
    ensures
        (exists|i: int| 0 <= i < list@.len() && #[trigger] list@[i].0@ == name@) ==> exists|i: int|
            0 <= i < list@.len() && #[trigger] list@[i].0@ == name@ && r@ == list@[i].1@ && forall|m: int|
                0 <= m < i ==> #[trigger] list@[m].0@ != name@,
        (forall|i: int| 0 <= i < list@.len() ==> #[trigger] list@[i].0@ != name@) ==> r@.len() == 0,
{
    let mut i: usize = 0;
    while i < list.len()
        invariant
            i <= list@.len(),
            forall|m: int| 0 <= m < i ==> #[trigger] list@[m].0@ != name@,
        decreases list@.len() - i,
    {
        if list[i].0 == *name {
            return list[i].1.clone();
        }
        i = i + 1;
    }
    Vec::new()
}

} // verus!
