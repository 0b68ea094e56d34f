//! A standalone string-interning table, for callers that keep one apart
//! from any buffer.

use vstd::prelude::*;

use crate::buffer::{spec_add_str, tbl_contains, lemma_tbl_index_of_found};
use crate::values::{ErrorKind, RpError, RpResult};

verus! {

/// An append-only string table with exact-match deduplication.
pub struct StrConfig {
    /// The interned strings, in first-seen order.
    pub str_arr: Vec<String>,
}

impl StrConfig {
    /// The table as a sequence of character strings.
    pub open spec fn table(&self) -> Seq<Seq<char>> {
        Seq::new(self.str_arr@.len(), |i: int| self.str_arr@[i]@)
    }

    /// An empty table.
    pub fn new() -> (r: Self)
        ensures
            r.table() == Seq::<Seq<char>>::empty(),
    {
        let r = StrConfig { str_arr: Vec::new() };
        proof {
            assert(r.table() =~= Seq::<Seq<char>>::empty());
        }
        r
    }

    /// Interns a string: returns the index of an existing exact match,
    /// else appends the string and returns its new index.
    pub fn add_str(&mut self, value: String) -> (idx: u16)
        ensures
            final(self).table() == spec_add_str(old(self).table(), value@).0,
            idx as int == spec_add_str(old(self).table(), value@).1 % 65536,
    {
        let ghost tbl = old(self).table();
        let n = self.str_arr.len();
        let mut i: usize = 0;
        while i < n
            invariant
                n == tbl.len(),
                i <= n,
                self == old(self),
                tbl == self.table(),
                forall|j: int| 0 <= j < i ==> tbl[j] != value@,
            decreases n - i,
        {
            if self.str_arr[i] == value {
                proof {
                    assert(tbl[i as int] == value@);
                    lemma_tbl_index_of_found(tbl, value@, i as int);
                }
                return (i % 65536) as u16;
            }
            i += 1;
        }
        assert(!tbl_contains(tbl, value@));
        self.str_arr.push(value);
        proof {
            assert(self.table() =~= tbl.push(value@));
        }
        (n % 65536) as u16
    }

    /// Returns the interned string at `idx`, or an out-of-range error.
    pub fn get_str(&self, idx: u16) -> (r: RpResult<String>)
        ensures
            match r {
                Ok(s) => idx < self.table().len() && s@ == self.table()[idx as int],
                Err(e) => idx >= self.table().len() && e.spec_kind() == ErrorKind::ExtensionError,
            },
    {
        if idx as usize >= self.str_arr.len() {
            Err(crate::values::make_extension_error("too big index", None))
        } else {
            Ok(self.str_arr[idx as usize].clone())
        }
    }
}

} // verus!
