//! The adaptive dictionary of one segment and the byte runs its codes stand for.

use vstd::prelude::*;
use crate::code::Code;

verus! {

/// Greatest number of entries that a dictionary holds.
pub const MAX_ENTRIES: usize = 0x1000;

/// One slot of the dictionary: the run of `next`, with `value` after it.
#[derive(Copy, Clone, Debug, PartialEq, Eq, Structural)]
pub struct DictionaryEntry {
    pub value: u8,
    pub next: Code,
}

/// Whether `code` may be the link of the entry in `slot`: a literal, or an
/// index of an earlier slot.
pub open spec fn precedes(code: Code, slot: int) -> bool {
    match code {
        Code::Value(_) => true,
        Code::Index(p) => p < slot,
        Code::Command(_) => false,
    }
}

/// Every entry links to a literal or to an earlier slot, so no chain of links
/// runs in a circle.
pub open spec fn links_back(dict: Seq<DictionaryEntry>) -> bool {
    forall|i: int| 0 <= i < dict.len() ==> precedes((#[trigger] dict[i]).next, i)
}

/// How far a code is from the end of its chain, at most.
pub open spec fn chain_rank(code: Code) -> nat {
    match code {
        Code::Index(p) => p as nat + 1,
        _ => 0,
    }
}

/// The byte run that `code` stands for in `dict`, in output order: a literal
/// stands for itself, an index for the run of its entry's link followed by
/// the entry's byte. There is none for a command, for an index beyond the
/// dictionary, and for a chain that leaves the dictionary's order.
pub open spec fn run_of(dict: Seq<DictionaryEntry>, code: Code) -> Option<Seq<u8>>
    decreases chain_rank(code),
{
    match code {
        Code::Value(d) => Some(seq![d]),
        Code::Command(_) => None,
        Code::Index(p) => if p < dict.len() && precedes(dict[p as int].next, p as int) {
            match run_of(dict, dict[p as int].next) {
                Some(run) => Some(run.push(dict[p as int].value)),
                None => None,
            }
        } else {
            None
        },
    }
}

/// Whether `code` is a literal or an index of a slot that `dict` holds.
pub open spec fn in_dictionary(dict: Seq<DictionaryEntry>, code: Code) -> bool {
    precedes(code, dict.len() as int)
}

/// In a dictionary whose links point back, every literal and every index of
/// a slot has a run, the run is not empty, and it is no longer than the
/// chain can be.
pub proof fn lemma_run_exists(dict: Seq<DictionaryEntry>, code: Code)
    requires
        links_back(dict),
        in_dictionary(dict, code),
    ensures
        run_of(dict, code) is Some,
        1 <= run_of(dict, code).unwrap().len() <= chain_rank(code) + 1,
    decreases chain_rank(code),
{
    if let Code::Index(p) = code {
        lemma_run_exists(dict, dict[p as int].next);
    }
}

/// A run, where there is one, is never empty.
pub proof fn lemma_run_not_empty(dict: Seq<DictionaryEntry>, code: Code)
    ensures
        run_of(dict, code) matches Some(run) ==> run.len() >= 1,
    decreases chain_rank(code),
{
    if let Code::Index(p) = code {
        if p < dict.len() && precedes(dict[p as int].next, p as int) {
            lemma_run_not_empty(dict, dict[p as int].next);
        }
    }
}

/// A new entry changes the run of no code that the dictionary already held:
/// entries are only ever added behind the slots that chains pass through.
pub proof fn lemma_run_stable(dict: Seq<DictionaryEntry>, entry: DictionaryEntry, code: Code)
    requires
        in_dictionary(dict, code),
    ensures
        run_of(dict.push(entry), code) == run_of(dict, code),
    decreases chain_rank(code),
{
    if let Code::Index(p) = code {
        assert(dict.push(entry)[p as int] == dict[p as int]);
        if precedes(dict[p as int].next, p as int) {
            lemma_run_stable(dict, entry, dict[p as int].next);
        }
    }
}

/// The dictionary of one segment: entries in the order in which they were
/// added, never more than `MAX_ENTRIES`, each linking to a literal or to an
/// earlier entry.
pub struct Dictionary {
    entries: Vec<DictionaryEntry>,
}

impl View for Dictionary {
    type V = Seq<DictionaryEntry>;

    closed spec fn view(&self) -> Seq<DictionaryEntry> {
        self.entries@
    }
}

impl Dictionary {
    /// The size stays within its limit and every link points back.
    #[verifier::type_invariant]
    pub open spec fn inv(&self) -> bool {
        &&& self@.len() <= 0x1000
        &&& links_back(self@)
    }

    /// A dictionary without entries.
    pub fn new() -> (dictionary: Dictionary)
        ensures
            dictionary@ == Seq::<DictionaryEntry>::empty(),
    {
        Dictionary { entries: Vec::new() }
    }

    /// The number of entries.
    pub fn len(&self) -> (len: usize)
        ensures
            len == self@.len(),
            len <= MAX_ENTRIES,
    {
        proof {
            use_type_invariant(self);
        }
        self.entries.len()
    }

    /// Adds `entry` in the next free slot.
    pub fn push(&mut self, entry: DictionaryEntry)
        requires
            old(self)@.len() < MAX_ENTRIES,
            in_dictionary(old(self)@, entry.next),
        ensures
            final(self)@ == old(self)@.push(entry),
    {
        proof {
            use_type_invariant(&*self);
        }
        let mut entries: Vec<DictionaryEntry> = Vec::new();
        core::mem::swap(&mut self.entries, &mut entries);
        entries.push(entry);
        core::mem::swap(&mut self.entries, &mut entries);
    }

    /// The byte run of `code`, or `None` where it has none.
    pub fn expand(&self, code: Code) -> (result: Option<Vec<u8>>)
        ensures
            match run_of(self@, code) {
                Some(run) => result matches Some(bytes) && bytes@ == run,
                None => result is None,
            },
    {
        proof {
            use_type_invariant(self);
        }
        // The bytes behind the current link, last byte first.
        let mut tail: Vec<u8> = Vec::new();
        let mut current = code;
        loop
            invariant
                links_back(self@),
                self@.len() <= 0x1000,
                self@ == self.entries@,
                run_of(self@, code) == match run_of(self@, current) {
                    Some(run) => Some(run + tail@.reverse()),
                    None => None,
                },
            decreases chain_rank(current),
        {
            match current {
                Code::Index(p) => {
                    if p >= self.entries.len() {
                        return None;
                    }
                    let entry = self.entries[p];
                    proof {
                        lemma_run_exists(self@, entry.next);
                        let rest = run_of(self@, entry.next).unwrap();
                        assert(tail@.push(entry.value).reverse() =~= seq![entry.value]
                            + tail@.reverse());
                        assert(rest.push(entry.value) + tail@.reverse() =~= rest + (seq![
                            entry.value,
                        ] + tail@.reverse()));
                    }
                    tail.push(entry.value);
                    current = entry.next;
                },
                Code::Value(d) => {
                    let mut run: Vec<u8> = Vec::new();
                    run.push(d);
                    let mut left: usize = tail.len();
                    while left > 0
                        invariant
                            left <= tail.len(),
                            run@ == seq![d] + tail@.reverse().take(tail.len() - left),
                        decreases left,
                    {
                        left = left - 1;
                        run.push(tail[left]);
                        assert(run@ =~= seq![d] + tail@.reverse().take(tail.len() - left));
                    }
                    assert(tail@.reverse().take(tail.len() as int) =~= tail@.reverse());
                    return Some(run);
                },
                Code::Command(_) => {
                    return None;
                },
            }
        }
    }
}

} // verus!
