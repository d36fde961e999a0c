//! A process's rollup of its mapped regions (`/proc/<pid>/smaps_rollup`),
//! read one line at a time.
use vstd::prelude::*;
use vstd::slice::{slice_subrange, slice_to_vec};
use vstd::string::{StrSliceExecFns, StringSliceAdditionalSpecFns};

use crate::error::{outcome, Failure, MemError};
use crate::text::{
    bytes_eq, lemma_token_bounds, parse_decimal, parse_u64, skip_space, skip_word, token_from,
};

verus! {

/// The longest command name that a record keeps, in characters.
pub const MAX_COMMAND_LEN: usize = 50;

/// Width of the label at the start of each line of the rollup.
pub const LABEL_LEN: usize = 10;

/// Memory of one process, in kB as the kernel reports them.
#[derive(Debug, Clone)]
pub struct ProcessMemoryStats {
    pub pid: u32,
    /// Left for the caller to fill.
    pub username: String,
    /// The command name, cut to `MAX_COMMAND_LEN` characters.
    pub command: String,
    pub swap: u64,
    /// Private clean plus private dirty memory.
    pub uss: u64,
    pub pss: u64,
    pub rss: u64,
}

/// A command name cut to at most `MAX_COMMAND_LEN` characters.
pub open spec fn cut_command(c: Seq<char>) -> Seq<char> {
    if c.len() > MAX_COMMAND_LEN {
        c.subrange(0, MAX_COMMAND_LEN as int)
    } else {
        c
    }
}

/// `l` starts with the label `name`, which is `LABEL_LEN` bytes long.
pub open spec fn has_label(l: Seq<u8>, name: &str) -> bool {
    l.len() >= LABEL_LEN && l.subrange(0, LABEL_LEN as int) == name.spec_bytes()
}

/// The value of a line: its first token from byte `skip` on, as an unsigned
/// integer.
pub open spec fn field_value(l: Seq<u8>, skip: int) -> Option<u64> {
    if skip <= l.len() {
        parse_u64(token_from(l, skip))
    } else {
        None
    }
}

/// `a + b`, or `u64::MAX` where the sum does not fit.
pub open spec fn sat_add(a: u64, b: u64) -> u64 {
    if a + b > u64::MAX {
        u64::MAX
    } else {
        (a + b) as u64
    }
}

/// One line of the rollup applied to `p`. Lines shorter than the label, or
/// with a label that is not one of the five below, change nothing; the value
/// of a recognized line must be an unsigned integer. `Rss`, `Pss` and `Swap`
/// overwrite their field, the two private sizes add into `uss`.
pub open spec fn rollup_line(p: ProcessMemoryStats, l: Seq<u8>) -> Result<
    ProcessMemoryStats,
    Failure,
> {
    if l.len() < LABEL_LEN {
        Ok(p)
    } else if has_label(l, "Rss:      ") {
        match field_value(l, 5) {
            Some(v) => Ok(ProcessMemoryStats { rss: v, ..p }),
            None => Err(Failure::InvalidNumber(l)),
        }
    } else if has_label(l, "Pss:      ") {
        match field_value(l, 5) {
            Some(v) => Ok(ProcessMemoryStats { pss: v, ..p }),
            None => Err(Failure::InvalidNumber(l)),
        }
    } else if has_label(l, "Private_Cl") || has_label(l, "Private_Di") {
        match field_value(l, 14) {
            Some(v) => Ok(ProcessMemoryStats { uss: sat_add(p.uss, v), ..p }),
            None => Err(Failure::InvalidNumber(l)),
        }
    } else if has_label(l, "Swap:     ") {
        match field_value(l, 6) {
            Some(v) => Ok(ProcessMemoryStats { swap: v, ..p }),
            None => Err(Failure::InvalidNumber(l)),
        }
    } else {
        Ok(p)
    }
}

/// The command name cut to at most `MAX_COMMAND_LEN` characters.
pub fn truncate_command(command: &str) -> (r: String)
    ensures
        r@ == cut_command(command@),
        command@.len() > MAX_COMMAND_LEN ==> r@.len() == MAX_COMMAND_LEN,
        command@.len() <= MAX_COMMAND_LEN ==> r@ == command@,
{
    if command.unicode_len() > MAX_COMMAND_LEN {
        command.substring_char(0, MAX_COMMAND_LEN).to_owned()
    } else {
        command.to_owned()
    }
}

/// Reads the value of line `l` from byte `skip` on.
fn read_value(l: &[u8], skip: usize) -> (r: Option<u64>)
    ensures
        r == field_value(l@, skip as int),
{
    if skip > l.len() {
        return None;
    }
    proof {
        lemma_token_bounds(l@, skip as int);
    }
    let s = skip_space(l, skip);
    let e = skip_word(l, s);
    parse_decimal(slice_subrange(l, s, e))
}

impl ProcessMemoryStats {
    /// An empty record.
    pub fn new() -> (r: Self)
        ensures
            r.pid == 0,
            r.username@.len() == 0,
            r.command@.len() == 0,
            r.swap == 0,
            r.uss == 0,
            r.pss == 0,
            r.rss == 0,
    {
        ProcessMemoryStats {
            pid: 0,
            username: String::new(),
            command: String::new(),
            swap: 0,
            uss: 0,
            pss: 0,
            rss: 0,
        }
    }

    /// Starts the inspection of process `pid`, whose command name is
    /// `command`: the measured fields return to zero, ready for the lines of
    /// the rollup.
    pub fn update(&mut self, pid: u32, command: &str)
        ensures
            final(self).pid == pid,
            final(self).command@ == cut_command(command@),
            final(self).username == old(self).username,
            final(self).swap == 0,
            final(self).uss == 0,
            final(self).pss == 0,
            final(self).rss == 0,
    {
        self.command = truncate_command(command);
        self.pid = pid;
        self.swap = 0;
        self.uss = 0;
        self.pss = 0;
        self.rss = 0;
    }

    /// Applies one line of the rollup. On failure the record is left as it
    /// was.
    pub fn scan_line(&mut self, line: &[u8]) -> (r: Result<(), MemError>)
        ensures
            match rollup_line(*old(self), line@) {
                Ok(p) => r is Ok && *final(self) == p,
                Err(f) => {
                    &&& r is Err
                    &&& outcome(r) == Err::<(), Failure>(f)
                    &&& *final(self) == *old(self)
                },
            },
            line@.len() < LABEL_LEN ==> r is Ok && *final(self) == *old(self),
    {
        if line.len() < LABEL_LEN {
            return Ok(());
        }
        let label = slice_subrange(line, 0, LABEL_LEN);
        if bytes_eq(label, "Rss:      ".as_bytes()) {
            match read_value(line, 5) {
                Some(v) => self.rss = v,
                None => return Err(MemError::InvalidNumber(slice_to_vec(line))),
            }
        } else if bytes_eq(label, "Pss:      ".as_bytes()) {
            match read_value(line, 5) {
                Some(v) => self.pss = v,
                None => return Err(MemError::InvalidNumber(slice_to_vec(line))),
            }
        } else if bytes_eq(label, "Private_Cl".as_bytes()) || bytes_eq(
            label,
            "Private_Di".as_bytes(),
        ) {
            match read_value(line, 14) {
                Some(v) => {
                    self.uss = if self.uss > u64::MAX - v {
                        u64::MAX
                    } else {
                        self.uss + v
                    };
                },
                None => return Err(MemError::InvalidNumber(slice_to_vec(line))),
            }
        } else if bytes_eq(label, "Swap:     ".as_bytes()) {
            match read_value(line, 6) {
                Some(v) => self.swap = v,
                None => return Err(MemError::InvalidNumber(slice_to_vec(line))),
            }
        }
        Ok(())
    }
}

} // verus!
