//! The selection engine: the full record set, the filtered view derived
//! from the current filter text, and a wrap-around cursor over that view.
//!
//! The filtered view is always recomputed from the record set and the
//! filter text alone, and the cursor is clamped back into range after
//! every recompute.

use crate::log::{InstallEntry, RecordModel};
use crate::text::{
    contains_seq, file_name_of, file_name_str, lemma_contains_empty, lower_of, lowercase,
    str_contains_str,
};
use vstd::prelude::*;

verus! {

/// Whether keystrokes currently edit the list selection or the filter text.
#[derive(PartialEq, Eq, Structural, Clone, Copy, Debug)]
pub enum InputMode {
    Normal,
    Filter,
}

/// A record matches a (lower-cased) filter when the filter occurs in the
/// lower-cased file name of its path, in its lower-cased repo, or in its
/// lower-cased path.
pub open spec fn matches_filter(m: RecordModel, f: Seq<char>) -> bool {
    ||| contains_seq(lower_of(file_name_of(m.path)), f)
    ||| contains_seq(lower_of(m.repo), f)
    ||| contains_seq(lower_of(m.path), f)
}

/// `filtered` holds exactly the indices of the entries of `all` that
/// match `f`, in increasing order.
pub open spec fn filter_selects(all: Seq<InstallEntry>, filtered: Seq<usize>, f: Seq<char>) -> bool {
    &&& forall|j: int| 0 <= j < filtered.len() ==> (#[trigger] filtered[j]) < all.len()
    &&& forall|i: int, j: int| 0 <= i < j < filtered.len() ==> filtered[i] < filtered[j]
    &&& forall|j: int|
        0 <= j < filtered.len() ==> matches_filter(#[trigger] all[filtered[j] as int]@, f)
    &&& forall|k: int|
        0 <= k < all.len() && matches_filter(#[trigger] all[k]@, f) ==> filtered.contains(
            k as usize,
        )
}

/// The cursor after one step forward over a view of length `n`.
pub open spec fn next_cursor(sel: int, n: int) -> int {
    if n <= 0 {
        sel
    } else {
        (sel + 1) % n
    }
}

/// The cursor after one step backward over a view of length `n`.
pub open spec fn prev_cursor(sel: int, n: int) -> int {
    if n <= 0 {
        sel
    } else if sel == 0 {
        n - 1
    } else {
        sel - 1
    }
}

/// The cursor after `k` steps forward.
pub open spec fn iter_next(sel: int, n: int, k: nat) -> int
    decreases k,
{
    if k == 0 {
        sel
    } else {
        next_cursor(iter_next(sel, n, (k - 1) as nat), n)
    }
}

/// The cursor after `k` steps backward.
pub open spec fn iter_prev(sel: int, n: int, k: nat) -> int
    decreases k,
{
    if k == 0 {
        sel
    } else {
        prev_cursor(iter_prev(sel, n, (k - 1) as nat), n)
    }
}

proof fn lemma_iter_next_value(sel: int, n: int, k: nat)
    requires
        0 <= sel < n,
        k <= n,
    ensures
        iter_next(sel, n, k) == if sel + k < n {
            sel + k
        } else {
            sel + k - n
        },
    decreases k,
{
    if k > 0 {
        lemma_iter_next_value(sel, n, (k - 1) as nat);
        let p = iter_next(sel, n, (k - 1) as nat);
        if p + 1 < n {
            vstd::arithmetic::div_mod::lemma_small_mod((p + 1) as nat, n as nat);
        } else {
            vstd::arithmetic::div_mod::lemma_mod_self_0(n);
        }
    }
}

proof fn lemma_iter_prev_value(sel: int, n: int, k: nat)
    requires
        0 <= sel < n,
        k <= n,
    ensures
        iter_prev(sel, n, k) == if k <= sel {
            sel - k
        } else {
            sel - k + n
        },
    decreases k,
{
    if k > 0 {
        lemma_iter_prev_value(sel, n, (k - 1) as nat);
    }
}

/// Stepping forward as many times as the view is long returns the cursor
/// to where it started, from any start.
pub proof fn lemma_next_wraps(sel: int, n: int)
    requires
        0 <= sel < n,
    ensures
        iter_next(sel, n, n as nat) == sel,
{
    lemma_iter_next_value(sel, n, n as nat);
}

/// Stepping backward as many times as the view is long returns the cursor
/// to where it started, from any start.
pub proof fn lemma_prev_wraps(sel: int, n: int)
    requires
        0 <= sel < n,
    ensures
        iter_prev(sel, n, n as nat) == sel,
{
    lemma_iter_prev_value(sel, n, n as nat);
}

/// The interactive view over the loaded records.
pub struct App {
    pub all_entries: Vec<InstallEntry>,
    pub filtered_entries: Vec<usize>,
    pub selected: usize,
    pub input_mode: InputMode,
    pub filter_input: String,
}

impl App {
    /// The filtered view holds valid indices in increasing order, and the
    /// cursor is in range (or zero over an empty view).
    pub open spec fn wf(self) -> bool {
        &&& forall|j: int|
            0 <= j < self.filtered_entries@.len() ==> (#[trigger] self.filtered_entries@[j])
                < self.all_entries@.len()
        &&& forall|i: int, j: int|
            0 <= i < j < self.filtered_entries@.len() ==> self.filtered_entries@[i]
                < self.filtered_entries@[j]
        &&& if self.filtered_entries@.len() == 0 {
            self.selected == 0
        } else {
            (self.selected as int) < self.filtered_entries@.len()
        }
    }

    /// A fresh view over `entries`: no filter, every index visible, the
    /// cursor on the first entry.
    pub fn new(entries: Vec<InstallEntry>) -> (r: App)
        ensures
            r.wf(),
            r.all_entries == entries,
            r.filtered_entries@.len() == entries@.len(),
            forall|j: int| 0 <= j < entries@.len() ==> #[trigger] r.filtered_entries@[j] == j,
            r.selected == 0,
            r.input_mode == InputMode::Normal,
            r.filter_input@ == Seq::<char>::empty(),
    {
        let n = entries.len();
        let mut filtered: Vec<usize> = Vec::new();
        let mut k: usize = 0;
        while k < n
            invariant
                k <= n,
                filtered@.len() == k,
                forall|j: int| 0 <= j < k ==> #[trigger] filtered@[j] == j,
            decreases n - k,
        {
            filtered.push(k);
            k += 1;
        }
        App {
            all_entries: entries,
            filtered_entries: filtered,
            selected: 0,
            input_mode: InputMode::Normal,
            filter_input: String::new(),
        }
    }

    /// The records of the filtered view, in view order.
    pub fn visible_entries(&self) -> (r: Vec<&InstallEntry>)
        requires
            self.wf(),
        ensures
            r@.len() == self.filtered_entries@.len(),
            forall|j: int|
                0 <= j < r@.len() ==> *(#[trigger] r@[j]) == self.all_entries@[
                    self.filtered_entries@[j] as int
                ],
    {
        let mut r: Vec<&InstallEntry> = Vec::new();
        let mut k: usize = 0;
        while k < self.filtered_entries.len()
            invariant
                self.wf(),
                k <= self.filtered_entries@.len(),
                r@.len() == k,
                forall|j: int|
                    0 <= j < k ==> *(#[trigger] r@[j]) == self.all_entries@[
                        self.filtered_entries@[j] as int
                    ],
            decreases self.filtered_entries@.len() - k,
        {
            let idx = self.filtered_entries[k];
            r.push(&self.all_entries[idx]);
            k += 1;
        }
        r
    }

    /// Step the cursor forward, wrapping from the last entry to the first;
    /// a no-op over an empty view.
    pub fn next(&mut self)
        requires
            old(self).wf(),
        ensures
            final(self).wf(),
            final(self).all_entries == old(self).all_entries,
            final(self).filtered_entries == old(self).filtered_entries,
            final(self).input_mode == old(self).input_mode,
            final(self).filter_input == old(self).filter_input,
            final(self).selected as int == next_cursor(
                old(self).selected as int,
                old(self).filtered_entries@.len() as int,
            ),
    {
        if self.filtered_entries.len() > 0 {
            self.selected = (self.selected + 1) % self.filtered_entries.len();
        }
    }

    /// Step the cursor backward, wrapping from the first entry to the last;
    /// a no-op over an empty view.
    pub fn prev(&mut self)
        requires
            old(self).wf(),
        ensures
            final(self).wf(),
            final(self).all_entries == old(self).all_entries,
            final(self).filtered_entries == old(self).filtered_entries,
            final(self).input_mode == old(self).input_mode,
            final(self).filter_input == old(self).filter_input,
            final(self).selected as int == prev_cursor(
                old(self).selected as int,
                old(self).filtered_entries@.len() as int,
            ),
    {
        if self.filtered_entries.len() > 0 {
            if self.selected == 0 {
                self.selected = self.filtered_entries.len() - 1;
            } else {
                self.selected = self.selected - 1;
            }
        }
    }

    /// The record under the cursor, or `None` over an empty view.
    pub fn current(&self) -> (r: Option<&InstallEntry>)
        requires
            self.wf(),
        ensures
            match r {
                Some(e) => self.filtered_entries@.len() > 0 && *e == self.all_entries@[
                    self.filtered_entries@[self.selected as int] as int
                ],
                None => self.filtered_entries@.len() == 0,
            },
    {
        if self.filtered_entries.len() > 0 {
            let idx = self.filtered_entries[self.selected];
            Some(&self.all_entries[idx])
        } else {
            None
        }
    }

    /// Recompute the filtered view from the record set and the filter text
    /// alone: an empty filter selects every record in order; a non-empty
    /// one selects, in order, the records it matches case-insensitively.
    /// The cursor stays where it was when still in range, and is clamped
    /// to the last entry (or zero when nothing matches) otherwise.
    pub fn apply_filter(&mut self)
        requires
            old(self).wf(),
        ensures
            final(self).wf(),
            final(self).all_entries == old(self).all_entries,
            final(self).input_mode == old(self).input_mode,
            final(self).filter_input == old(self).filter_input,
            filter_selects(
                final(self).all_entries@,
                final(self).filtered_entries@,
                lower_of(old(self).filter_input@),
            ),
            old(self).filter_input@.len() == 0 ==> final(self).filtered_entries@ =~= Seq::new(
                old(self).all_entries@.len(),
                |j: int| j as usize,
            ),
            ({
                let nlen = final(self).filtered_entries@.len() as int;
                final(self).selected as int == if (old(self).selected as int) < nlen {
                    old(self).selected as int
                } else if nlen == 0 {
                    0
                } else {
                    nlen - 1
                }
            }),
    {
        let lowered = lowercase(self.filter_input.as_str());
        let ghost f = lower_of(self.filter_input@);
        let n = self.all_entries.len();
        let mut filtered: Vec<usize> = Vec::new();
        if lowered.as_str().is_empty() {
            proof {
                lemma_contains_empty(Seq::<char>::empty());
                assert(f =~= Seq::<char>::empty());
            }
            let mut k: usize = 0;
            while k < n
                invariant
                    k <= n,
                    filtered@.len() == k,
                    forall|j: int| 0 <= j < k ==> #[trigger] filtered@[j] == j,
                decreases n - k,
            {
                filtered.push(k);
                k += 1;
            }
            proof {
                assert forall|k2: int|
                    0 <= k2 < self.all_entries@.len() && matches_filter(
                        self.all_entries@[k2]@,
                        f,
                    ) implies filtered@.contains(k2 as usize) by {
                    assert(filtered@[k2] == k2 as usize);
                }
                assert forall|j: int| 0 <= j < filtered@.len() implies matches_filter(
                    #[trigger] self.all_entries@[filtered@[j] as int]@,
                    f,
                ) by {
                    lemma_contains_empty(lower_of(file_name_of(self.all_entries@[j]@.path)));
                }
            }
        } else {
            let mut k: usize = 0;
            while k < n
                invariant
                    k <= n,
                    n == self.all_entries@.len(),
                    lowered@ == f,
                    forall|j: int| 0 <= j < filtered@.len() ==> (#[trigger] filtered@[j]) < k,
                    forall|i: int, j: int|
                        0 <= i < j < filtered@.len() ==> filtered@[i] < filtered@[j],
                    forall|j: int|
                        0 <= j < filtered@.len() ==> matches_filter(
                            #[trigger] self.all_entries@[filtered@[j] as int]@,
                            f,
                        ),
                    forall|m: int|
                        0 <= m < k && matches_filter(#[trigger] self.all_entries@[m]@, f)
                            ==> filtered@.contains(m as usize),
                decreases n - k,
            {
                let e = &self.all_entries[k];
                let name = file_name_str(e.path.as_str());
                let name_l = lowercase(name);
                let repo_l = lowercase(e.repo.as_str());
                let path_l = lowercase(e.path.as_str());
                let hit = str_contains_str(name_l.as_str(), lowered.as_str())
                    || str_contains_str(repo_l.as_str(), lowered.as_str())
                    || str_contains_str(path_l.as_str(), lowered.as_str());
                let ghost old_filtered = filtered@;
                if hit {
                    filtered.push(k);
                }
                proof {
                    assert forall|m: int|
                        0 <= m < k + 1 && matches_filter(
                            #[trigger] self.all_entries@[m]@,
                            f,
                        ) implies filtered@.contains(m as usize) by {
                        if m < k {
                            let w = choose|w: int|
                                0 <= w < old_filtered.len() && old_filtered[w] == m as usize;
                            assert(filtered@[w] == m as usize);
                        } else {
                            assert(filtered@.last() == m as usize);
                        }
                    }
                }
                k += 1;
            }
        }
        self.filtered_entries = filtered;
        if self.selected >= self.filtered_entries.len() {
            self.selected = if self.filtered_entries.len() == 0 {
                0
            } else {
                self.filtered_entries.len() - 1
            };
        }
    }
}

} // verus!


