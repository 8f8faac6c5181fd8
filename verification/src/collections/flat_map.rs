use vstd::prelude::*;

verus! {

/// A slot of an open-addressing hash table.
#[derive(Clone, Debug)]
pub enum Bucket<K, V> {
    /// Never used: a probe for a key ends here.
    Empty,
    /// Emptied by a removal: a probe goes on past it.
    Deleted,
    Occupied(K, V),
}

/// What a probe sees in a slot: empty, a tombstone, or an entry whose key does or does
/// not equal the key probed for.
#[derive(Clone, Copy, Debug, PartialEq, Eq)]
pub enum SlotSeen {
    Empty,
    Deleted,
    Occupied { key_matches: bool },
}

/// What a probe does next.
#[derive(Clone, Copy, Debug, PartialEq, Eq)]
pub enum ProbeAction {
    /// Look at this slot next.
    Next(usize),
    /// The key is in this slot.
    Found(usize),
    /// The key is absent; a new entry goes into this slot.
    Place(usize),
    /// The key is absent.
    Absent,
}

/// The slot after `idx`, wrapping around a table of `mask + 1` slots.
pub open spec fn next_slot(idx: usize, mask: usize) -> usize {
    idx.wrapping_add(1) & mask
}

/// The first slot probed for a digest, in a table of `mask + 1` slots.
pub fn probe_start(hash: u64, mask: usize) -> (r: usize)
    ensures
        r == (hash as usize) & mask,
{
    #[verifier::truncate]
    let h = (hash as usize);
    h & mask
}

/// One step of a lookup (get, get_mut, remove) at slot `idx`: an empty slot ends it with
/// the key absent, the key found ends it there, anything else goes on to the next slot.
pub fn lookup_step(idx: usize, mask: usize, seen: SlotSeen) -> (r: ProbeAction)
    ensures
        r == match seen {
            SlotSeen::Empty => ProbeAction::Absent,
            SlotSeen::Deleted => ProbeAction::Next(next_slot(idx, mask)),
            SlotSeen::Occupied { key_matches } => if key_matches {
                ProbeAction::Found(idx)
            } else {
                ProbeAction::Next(next_slot(idx, mask))
            },
        },
{
    match seen {
        SlotSeen::Empty => ProbeAction::Absent,
        SlotSeen::Occupied { key_matches: true } => ProbeAction::Found(idx),
        _ => ProbeAction::Next(idx.wrapping_add(1) & mask),
    }
}

/// One step of an insertion at slot `idx`, with the first tombstone passed so far: the key
/// found there is replaced in place; an empty slot ends the probe, and the entry goes into
/// the first tombstone passed, or else into this slot; anything else goes on, remembering
/// the first tombstone.
pub fn insert_step(idx: usize, mask: usize, first_deleted: Option<usize>, seen: SlotSeen) -> (r: (
    Option<usize>,
    ProbeAction,
))
    ensures
        r == match seen {
            SlotSeen::Empty => (first_deleted, match first_deleted {
                Some(d) => ProbeAction::Place(d),
                None => ProbeAction::Place(idx),
            }),
            SlotSeen::Deleted => (
                if first_deleted is None { Some(idx) } else { first_deleted },
                ProbeAction::Next(next_slot(idx, mask)),
            ),
            SlotSeen::Occupied { key_matches } => (first_deleted, if key_matches {
                ProbeAction::Found(idx)
            } else {
                ProbeAction::Next(next_slot(idx, mask))
            }),
        },
{
    match seen {
        SlotSeen::Empty => match first_deleted {
            Some(d) => (first_deleted, ProbeAction::Place(d)),
            None => (first_deleted, ProbeAction::Place(idx)),
        },
        SlotSeen::Deleted => {
            let fd = if first_deleted.is_none() {
                Some(idx)
            } else {
                first_deleted
            };
            (fd, ProbeAction::Next(idx.wrapping_add(1) & mask))
        },
        SlotSeen::Occupied { key_matches } => {
            if key_matches {
                (first_deleted, ProbeAction::Found(idx))
            } else {
                (first_deleted, ProbeAction::Next(idx.wrapping_add(1) & mask))
            }
        },
    }
}

/// The live and tombstone counts after an entry is placed: one more live entry, and one
/// tombstone fewer when it went into a tombstone.
pub fn counts_after_place(len: usize, deleted: usize, into_tombstone: bool) -> (r: (usize, usize))
    requires
        len < usize::MAX,
        into_tombstone ==> deleted > 0,
    ensures
        r == (
            (len + 1) as usize,
            if into_tombstone { (deleted - 1) as usize } else { deleted },
        ),
{
    (len + 1, if into_tombstone { deleted - 1 } else { deleted })
}

/// The live and tombstone counts after a removal: one live entry fewer, one tombstone more.
pub fn counts_after_remove(len: usize, deleted: usize) -> (r: (usize, usize))
    requires
        len > 0,
        deleted < usize::MAX,
    ensures
        r == ((len - 1) as usize, (deleted + 1) as usize),
{
    (len - 1, deleted + 1)
}

} // verus!
