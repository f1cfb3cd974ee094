use crate::data::{EntryID, EntryIndex, EntryInfo};
use vstd::prelude::*;

verus! {

/// The name of the domain that every exported row belongs to.
pub const LEGION_DOMAIN_NAME: &'static str = "Legion";

/// A slot of the tree: its path, its long name, and the place in the
/// hierarchy of domains that it is filed under.
pub type ResultVec = Vec<(EntryID, String, String)>;

/// `hierarchy`, a slash, and `short_name`.
pub open spec fn below(hierarchy: Seq<char>, short_name: Seq<char>) -> Seq<char> {
    hierarchy + seq!['/'] + short_name
}

/// What is listed of one slot: the view of its path and of its two names.
pub type ListedSlot = (Seq<EntryIndex>, Seq<char>, Seq<char>);

/// The slots of the tree `info`, which stands at the path `id` and is filed
/// under `hierarchy`, in the order of a walk that visits the summary of a
/// panel before its slots. A panel files what is below it under its own
/// short name, except the panel at the root, which adds nothing. A summary
/// lists nothing.
pub open spec fn walked(info: EntryInfo, id: Seq<EntryIndex>, hierarchy: Seq<char>) -> Seq<
    ListedSlot,
>
    decreases info, 0nat,
{
    match info {
        EntryInfo::Panel { summary, slots, short_name, .. } => {
            let inner = if id.len() > 0 {
                below(hierarchy, short_name@)
            } else {
                hierarchy
            };
            let first = match summary {
                Some(s) => walked(*s, id.push(EntryIndex::Summary), inner),
                None => Seq::empty(),
            };
            first + walked_slots(slots, slots@.len(), id, inner)
        },
        EntryInfo::Slot { long_name, short_name, .. } => seq![
            (id, long_name@, below(hierarchy, short_name@)),
        ],
        EntryInfo::Summary { .. } => Seq::empty(),
    }
}

/// The slots of the trees in the first `n` of `slots`, the slots of a
/// panel at the path `id`.
pub open spec fn walked_slots(
    slots: Vec<EntryInfo>,
    n: nat,
    id: Seq<EntryIndex>,
    inner: Seq<char>,
) -> Seq<ListedSlot>
    decreases slots, n,
{
    if n == 0 || n > slots@.len() {
        Seq::empty()
    } else {
        walked_slots(slots, (n - 1) as nat, id, inner) + walked(
            slots@[n - 1],
            id.push(EntryIndex::Slot((n - 1) as u64)),
            inner,
        )
    }
}

/// What a list of slots says, entry by entry.
pub open spec fn listed(result: Seq<(EntryID, String, String)>) -> Seq<ListedSlot> {
    Seq::new(result.len(), |i: int| (result[i].0@, result[i].1@, result[i].2@))
}

/// `hierarchy`, a slash, and `short_name`, as one string.
fn path_below(hierarchy: &str, short_name: &str) -> (r: String)
    ensures
        r@ == below(hierarchy@, short_name@),
{
    let mut r = hierarchy.to_owned();
    r.append("/");
    r.append(short_name);
    proof {
        reveal_strlit("/");
        assert(r@ =~= below(hierarchy@, short_name@));
    }
    r
}

/// The name of the stream that the row with the long name `long_name` is
/// written to: the name of the domain, a blank, and the long name.
pub open spec fn spec_stream_name(long_name: Seq<char>) -> Seq<char> {
    LEGION_DOMAIN_NAME@ + seq![' '] + long_name
}

/// `first`, a blank, and `second`, as one string.
fn spaced(first: &str, second: &str) -> (r: String)
    ensures
        r@ == first@ + seq![' '] + second@,
{
    let mut r = first.to_owned();
    r.append(" ");
    r.append(second);
    proof {
        reveal_strlit(" ");
        assert(r@ =~= first@ + seq![' '] + second@);
    }
    r
}

pub fn stream_name(long_name: &str) -> (name: String)
    ensures
        name@ == spec_stream_name(long_name@),
{
    spaced(LEGION_DOMAIN_NAME, long_name)
}

fn walk(info: &EntryInfo, entry_id: EntryID, result: &mut ResultVec, hierarchy: String)
    ensures
        listed(final(result)@) == listed(old(result)@) + walked(*info, entry_id@, hierarchy@),
    decreases info,
{
    match info {
        EntryInfo::Panel { summary, slots, short_name, .. } => {
            let inner = if entry_id.level() > 0 {
                path_below(hierarchy.as_str(), short_name.as_str())
            } else {
                hierarchy.clone()
            };
            if let Some(summary) = summary {
                walk(summary, entry_id.summary(), result, inner.clone());
            }
            let ghost start = listed(result@);
            let mut i: usize = 0;
            while i < slots.len()
                invariant
                    i <= slots.len(),
                    *info is Panel,
                    info->slots == *slots,
                    listed(result@) == start + walked_slots(*slots, i as nat, entry_id@, inner@),
                decreases slots.len() - i,
            {
                assert(decreases_to!(*slots => slots[i as int]));
                walk(&slots[i], entry_id.child(i as u64), result, inner.clone());
                i += 1;
            }
        },
        EntryInfo::Slot { long_name, short_name, .. } => {
            let ghost before = listed(result@);
            let place = path_below(hierarchy.as_str(), short_name.as_str());
            result.push((entry_id, long_name.clone(), place));
            assert(listed(result@) =~= before + seq![
                (entry_id@, long_name@, below(hierarchy@, short_name@)),
            ]);
        },
        EntryInfo::Summary { .. } => {},
    }
}

/// The slots of a profile, each with its path, its long name and the place
/// it is filed under, in the order in which a walk from the root meets
/// them.
pub fn walk_entry_list(info: &EntryInfo) -> (result: ResultVec)
    ensures
        listed(result@) == walked(*info, Seq::empty(), LEGION_DOMAIN_NAME@),
{
    let mut result: ResultVec = Vec::new();
    assert(listed(result@) =~= Seq::empty());
    walk(info, EntryID::root(), &mut result, LEGION_DOMAIN_NAME.to_owned());
    result
}

} // verus!
