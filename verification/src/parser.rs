//! Parses the line-oriented output stream of one running fuzz target.
//!
//! Two line shapes are recognized: a coverage line starting with `Sz:`,
//! whose ninth `/`-separated field carries a new-coverage count, and a
//! crash line naming a saved artifact file. Everything else is ignored.
//! A malformed coverage line stops parsing of this stream for good; the
//! caller reads the stream and acts on each step's outcome.
use vstd::prelude::*;

use crate::text::{spec_parse_u32, str_starts_with};

verus! {

/// First index of `c` in `s`, or the length of `s` when `c` is absent.
pub open spec fn idx_of(s: Seq<char>, c: char) -> int
    decreases s.len(),
{
    if s.len() == 0 {
        0
    } else if s[0] == c {
        0
    } else {
        1 + idx_of(s.drop_first(), c)
    }
}

/// The index a scan that stopped at `i` has found is the first one.
proof fn lemma_idx_of_is(s: Seq<char>, c: char, i: int)
    requires
        0 <= i <= s.len(),
        forall|k: int| 0 <= k < i ==> s[k] != c,
        i < s.len() ==> s[i] == c,
    ensures
        idx_of(s, c) == i,
    decreases s.len(),
{
    if s.len() > 0 {
        if i == 0 {
            if s[0] != c {
                assert(s.len() == 0);
            }
        } else {
            assert(s[0] != c);
            assert forall|k: int| 0 <= k < i - 1 implies s.drop_first()[k] != c by {
                assert(s.drop_first()[k] == s[k + 1]);
            }
            assert(i - 1 < s.drop_first().len() ==> s.drop_first()[i - 1] == s[i]);
            lemma_idx_of_is(s.drop_first(), c, i - 1);
        }
    }
}

/// What remains of a coverage line after dropping `k` `/`-separated
/// fields, or nothing when the line has too few fields.
pub open spec fn after_fields(s: Seq<char>, k: nat) -> Option<Seq<char>>
    decreases k,
{
    if k == 0 {
        Some(s)
    } else {
        let i = idx_of(s, '/');
        if i == s.len() {
            None
        } else {
            after_fields(s.skip(i + 1), (k - 1) as nat)
        }
    }
}

/// The field a remainder starts with.
pub open spec fn first_field(s: Seq<char>) -> Seq<char> {
    s.take(idx_of(s, '/'))
}

/// The ninth `/`-separated field of a coverage line, if it has one.
pub open spec fn ninth_field(s: Seq<char>) -> Option<Seq<char>> {
    match after_fields(s, 8) {
        Some(r) => Some(first_field(r)),
        None => None,
    }
}

/// Where a crash artifact named `file` lies under the working directory
/// `dir`: an absolute name stands alone, a relative one is joined.
pub open spec fn crash_path(dir: Seq<char>, file: Seq<char>) -> Seq<char> {
    if file.len() > 0 && file[0] == '/' {
        file
    } else if dir.len() > 0 && dir.last() == '/' {
        dir + file
    } else {
        dir + seq!['/'] + file
    }
}

/// The outcome of reading one line, at specification level.
pub enum SpecStep {
    Covered(u32),
    Crash(Seq<char>),
    Nothing,
    Stop,
}

/// What one line means for a stream whose target runs under `dir`.
pub open spec fn spec_process_line(dir: Seq<char>, line: Seq<char>) -> SpecStep {
    if line.len() >= 3 && line.take(3) == "Sz:"@ {
        match ninth_field(line) {
            None => SpecStep::Stop,
            Some(f) => if f == seq!['0'] {
                SpecStep::Nothing
            } else {
                match spec_parse_u32(f) {
                    Some(v) => SpecStep::Covered(v),
                    None => SpecStep::Stop,
                }
            },
        }
    } else if line.len() > crash_prefix().len() && line.take(crash_prefix().len() as int)
        == crash_prefix() {
        let rest = line.skip(crash_prefix().len() as int);
        SpecStep::Crash(crash_path(dir, rest.take(idx_of(rest, '\''))))
    } else {
        SpecStep::Nothing
    }
}

/// The marker a crash line starts with.
pub open spec fn crash_prefix() -> Seq<char> {
    "Crash: saved as '"@
}

/// The outcome of reading one line, as handed to the caller.
pub enum ParseStep {
    /// A coverage line reported this many newly covered units.
    Covered(u32),
    /// A crash artifact was saved at this path.
    Crash(String),
    /// The line asks for no action.
    Nothing,
    /// A malformed coverage line: parsing of this stream stops.
    Stop,
}

/// The executable outcome carries the same information as the
/// specification outcome.
pub open spec fn step_matches(r: ParseStep, s: SpecStep) -> bool {
    match (r, s) {
        (ParseStep::Covered(a), SpecStep::Covered(b)) => a == b,
        (ParseStep::Crash(p), SpecStep::Crash(q)) => p@ == q,
        (ParseStep::Nothing, SpecStep::Nothing) => true,
        (ParseStep::Stop, SpecStep::Stop) => true,
        _ => false,
    }
}

/// Parser state for one target's output stream.
pub struct OutputParser {
    dir: String,
    failed: bool,
}

impl OutputParser {
    /// The target's working directory, against which crash files are
    /// resolved.
    pub closed spec fn dir_view(&self) -> Seq<char> {
        self.dir@
    }

    /// Whether a malformed coverage line has stopped this stream.
    pub closed spec fn has_failed(&self) -> bool {
        self.failed
    }

    pub fn new(dir: String) -> (r: OutputParser)
        ensures
            r.dir_view() == dir@,
            !r.has_failed(),
    {
        OutputParser { dir, failed: false }
    }

    /// Reads one line of the stream and says what it asks for. After a
    /// malformed coverage line the stream is failed and stays failed.
    pub fn process_line(&mut self, line: &str) -> (r: ParseStep)
        requires
            !old(self).has_failed(),
        ensures
            step_matches(r, spec_process_line(old(self).dir_view(), line@)),
            final(self).dir_view() == old(self).dir_view(),
            final(self).has_failed() == (r is Stop),
    {
        let len = line.unicode_len();
        proof {
            reveal_strlit("Sz:");
            reveal_strlit("Crash: saved as '");
        }
        if str_starts_with(line, "Sz:") {
            let mut start: usize = 0;
            let mut k: usize = 0;
            proof {
                assert(line@.skip(0) =~= line@);
            }
            loop
                invariant
                    0 <= k <= 8,
                    0 <= start <= len,
                    len == line@.len(),
                    *self == *old(self),
                    !old(self).has_failed(),
                    line@.len() >= 3 && line@.take(3) == "Sz:"@,
                    after_fields(line@, 8) == after_fields(line@.skip(start as int), (8 - k) as nat),
                ensures
                    k == 8,
                    0 <= start <= len,
                    *self == *old(self),
                    after_fields(line@, 8) == Some(line@.skip(start as int)),
                decreases 8 - k,
            {
                if k >= 8 {
                    proof {
                        assert(after_fields(line@.skip(start as int), 0) == Some(
                            line@.skip(start as int),
                        ));
                    }
                    break ;
                }
                let idx = find_char(line, start, '/');
                proof {
                    lemma_idx_of_is_from(line@, start as int, idx as int, '/');
                }
                if idx >= len {
                    proof {
                        assert(idx_of(line@.skip(start as int), '/') == line@.skip(
                            start as int,
                        ).len());
                        assert(after_fields(line@.skip(start as int), (8 - k) as nat)
                            == None::<Seq<char>>);
                        assert(after_fields(line@, 8) == None::<Seq<char>>);
                        assert(ninth_field(line@) == None::<Seq<char>>);
                        assert(line@.len() >= 3 && line@.take(3) == "Sz:"@);
                        assert(spec_process_line(old(self).dir_view(), line@) is Stop);
                    }
                    self.failed = true;
                    return ParseStep::Stop;
                }
                proof {
                    assert(line@.skip(start as int).skip(idx - start + 1) =~= line@.skip(idx + 1));
                }
                start = idx + 1;
                k = k + 1;
            }
            let fend = find_char(line, start, '/');
            proof {
                lemma_idx_of_is_from(line@, start as int, fend as int, '/');
                assert(line@.skip(start as int).take(fend - start) =~= line@.subrange(
                    start as int,
                    fend as int,
                ));
            }
            let field = line.substring_char(start, fend);
            proof {
                assert(field@ =~= first_field(line@.skip(start as int)));
            }
            let is_zero = crate::text::str_eq(field, "0");
            proof {
                reveal_strlit("0");
                assert("0"@ =~= seq!['0']);
            }
            if is_zero {
                return ParseStep::Nothing;
            }
            match crate::text::parse_u32(field) {
                Some(v) => ParseStep::Covered(v),
                None => {
                    self.failed = true;
                    ParseStep::Stop
                },
            }
        } else if str_starts_with(line, "Crash: saved as '") {
            let plen = "Crash: saved as '".unicode_len();
            if len <= plen {
                proof {
                    assert(line@ =~= line@.take(plen as int));
                }
                return ParseStep::Nothing;
            }
            let qidx = find_char(line, plen, '\'');
            proof {
                lemma_idx_of_is_from(line@, plen as int, qidx as int, '\'');
                assert(line@.skip(plen as int).take(qidx - plen) =~= line@.subrange(
                    plen as int,
                    qidx as int,
                ));
            }
            let file = line.substring_char(plen, qidx);
            let ghost fseq = line@.skip(plen as int).take(
                idx_of(line@.skip(plen as int), '\''),
            );
            proof {
                assert(file@ =~= fseq);
            }
            let flen = file.unicode_len();
            let path: String;
            if flen > 0 && file.get_char(0) == '/' {
                path = file.to_owned();
            } else {
                let dlen = self.dir.as_str().unicode_len();
                let mut p = self.dir.clone();
                if dlen == 0 || self.dir.as_str().get_char(dlen - 1) != '/' {
                    p.append("/");
                    proof {
                        reveal_strlit("/");
                        assert("/"@ =~= seq!['/']);
                    }
                }
                p.append(file);
                proof {
                    if self.dir@.len() > 0 && self.dir@.last() == '/' {
                        assert(p@ =~= crash_path(self.dir@, fseq));
                    } else {
                        assert(p@ =~= self.dir@ + seq!['/'] + fseq);
                    }
                }
                path = p;
            }
            ParseStep::Crash(path)
        } else {
            ParseStep::Nothing
        }
    }
}

/// Why a calibration run's output yields no total.
#[derive(Clone, Copy, PartialEq, Eq, Structural, Debug)]
pub enum CalibrationError {
    /// The output holds no non-empty line.
    NoOutput,
    /// The last non-empty line has no `guard_nb:` marker followed by a
    /// space-terminated field.
    MarkerMissing,
    /// The field after the marker is not a counter.
    Unparsable,
}

/// Last index of `c` in `s`, or `-1` when `c` is absent.
pub open spec fn last_idx_of(s: Seq<char>, c: char) -> int
    decreases s.len(),
{
    if s.len() == 0 {
        -1
    } else if s.last() == c {
        s.len() - 1
    } else {
        last_idx_of(s.drop_last(), c)
    }
}

/// The last non-empty line of a stream: what remains after the final
/// newline once trailing newlines are dropped, if anything remains.
pub open spec fn last_nonempty_line(s: Seq<char>) -> Option<Seq<char>>
    decreases s.len(),
{
    if s.len() == 0 {
        None
    } else if s.last() == '\n' {
        last_nonempty_line(s.drop_last())
    } else {
        Some(s.skip(last_idx_of(s, '\n') + 1))
    }
}

/// First index at which `pat` occurs in `s`, or `-1` when it never does.
pub open spec fn sub_idx(s: Seq<char>, pat: Seq<char>) -> int
    decreases s.len(),
{
    if pat.len() == 0 {
        0
    } else if s.len() < pat.len() {
        -1
    } else if s.take(pat.len() as int) == pat {
        0
    } else {
        let r = sub_idx(s.drop_first(), pat);
        if r < 0 {
            -1
        } else {
            1 + r
        }
    }
}

/// The marker a calibration trailer carries before the total.
pub open spec fn marker() -> Seq<char> {
    "guard_nb:"@
}

/// The total a calibration run's output stands for: on the last
/// non-empty line, the space-terminated field after the first
/// `guard_nb:` marker, read as a counter.
pub open spec fn spec_total_coverage(s: Seq<char>) -> Result<u32, CalibrationError> {
    match last_nonempty_line(s) {
        None => Err(CalibrationError::NoOutput),
        Some(line) => {
            let m = sub_idx(line, marker());
            if m < 0 {
                Err(CalibrationError::MarkerMissing)
            } else {
                let after = line.skip(m + marker().len());
                let sp = idx_of(after, ' ');
                if sp == after.len() {
                    Err(CalibrationError::MarkerMissing)
                } else {
                    match spec_parse_u32(after.take(sp)) {
                        Some(v) => Ok(v),
                        None => Err(CalibrationError::Unparsable),
                    }
                }
            }
        },
    }
}

/// A scan that found the last occurrence at `i` names `last_idx_of`.
proof fn lemma_last_idx_of_is(s: Seq<char>, c: char, i: int)
    requires
        -1 <= i < s.len(),
        i >= 0 ==> s[i] == c,
        forall|k: int| i < k < s.len() ==> s[k] != c,
    ensures
        last_idx_of(s, c) == i,
    decreases s.len(),
{
    if s.len() > 0 {
        if i == s.len() - 1 {
        } else {
            assert(s.last() != c);
            assert forall|k: int| i < k < s.drop_last().len() implies s.drop_last()[k] != c by {
                assert(s.drop_last()[k] == s[k]);
            }
            assert(i >= 0 ==> s.drop_last()[i] == s[i]);
            lemma_last_idx_of_is(s.drop_last(), c, i);
        }
    }
}

/// A scan that found the first occurrence at `i` names `sub_idx`.
proof fn lemma_sub_idx_is(s: Seq<char>, pat: Seq<char>, i: int)
    requires
        pat.len() > 0,
        0 <= i,
        i + pat.len() <= s.len(),
        s.subrange(i, i + pat.len()) == pat,
        forall|k: int| 0 <= k < i ==> #[trigger] s.subrange(k, k + pat.len()) != pat,
    ensures
        sub_idx(s, pat) == i,
    decreases s.len(),
{
    if i == 0 {
        let z: int = 0;
        assert(s.take(pat.len() as int) =~= s.subrange(z, z + pat.len()));
    } else {
        let z: int = 0;
        assert(s.subrange(z, z + pat.len()) != pat);
        assert(s.take(pat.len() as int) =~= s.subrange(z, z + pat.len()));
        let t = s.drop_first();
        assert forall|k: int| 0 <= k < i - 1 implies #[trigger] t.subrange(k, k + pat.len())
            != pat by {
            let k1 = k + 1;
            assert(t.subrange(k, k + pat.len()) =~= s.subrange(k1, k1 + pat.len()));
            assert(s.subrange(k1, k1 + pat.len()) != pat);
        }
        let i1 = i - 1;
        assert(t.subrange(i1, i1 + pat.len()) =~= s.subrange(i, i + pat.len()));
        lemma_sub_idx_is(t, pat, i - 1);
    }
}

/// A scan that found no occurrence names `sub_idx` absent.
proof fn lemma_sub_idx_none(s: Seq<char>, pat: Seq<char>)
    requires
        pat.len() > 0,
        forall|k: int|
            0 <= k <= s.len() - pat.len() ==> #[trigger] s.subrange(k, k + pat.len()) != pat,
    ensures
        sub_idx(s, pat) == -1,
    decreases s.len(),
{
    if s.len() >= pat.len() {
        let z: int = 0;
        assert(s.subrange(z, z + pat.len()) != pat);
        assert(s.take(pat.len() as int) =~= s.subrange(z, z + pat.len()));
        let t = s.drop_first();
        assert forall|k: int| 0 <= k <= t.len() - pat.len() implies #[trigger] t.subrange(
            k,
            k + pat.len(),
        ) != pat by {
            let k1 = k + 1;
            assert(t.subrange(k, k + pat.len()) =~= s.subrange(k1, k1 + pat.len()));
            assert(s.subrange(k1, k1 + pat.len()) != pat);
        }
        lemma_sub_idx_none(t, pat);
    }
}

/// Reads the total-coverage trailer from a calibration run's captured
/// output: the space-terminated count after the first `guard_nb:`
/// marker on the last non-empty line. Says exactly why when it fails.
pub fn parse_total_coverage(s: &str) -> (r: Result<u32, CalibrationError>)
    ensures
        r == spec_total_coverage(s@),
{
    let len = s.unicode_len();
    let mut e: usize = len;
    proof {
        assert(s@.take(len as int) =~= s@);
    }
    while e > 0 && s.get_char(e - 1) == '\n'
        invariant
            0 <= e <= len,
            len == s@.len(),
            last_nonempty_line(s@) == last_nonempty_line(s@.take(e as int)),
        decreases e,
    {
        proof {
            assert(s@.take(e as int).last() == s@[e - 1]);
            assert(s@.take(e as int).drop_last() =~= s@.take(e - 1));
        }
        e = e - 1;
    }
    if e == 0 {
        proof {
            assert(s@.take(0).len() == 0);
        }
        return Err(CalibrationError::NoOutput);
    }
    let mut b: usize = e;
    while b > 0 && s.get_char(b - 1) != '\n'
        invariant
            0 <= b <= e,
            e <= len,
            len == s@.len(),
            forall|k: int| b <= k < e ==> s@[k] != '\n',
        decreases b,
    {
        b = b - 1;
    }
    let ghost te = s@.take(e as int);
    proof {
        assert(te.last() == s@[e - 1]);
        assert forall|k: int| b - 1 < k < te.len() implies te[k] != '\n' by {
            assert(te[k] == s@[k]);
        }
        if b > 0 {
            assert(te[b - 1] == s@[b - 1]);
        }
        lemma_last_idx_of_is(te, '\n', b - 1);
        assert(te.skip(b as int) =~= s@.subrange(b as int, e as int));
    }
    let line = s.substring_char(b, e);
    proof {
        assert(line@ =~= te.skip(last_idx_of(te, '\n') + 1));
        assert(last_nonempty_line(s@) == Some(line@));
    }
    proof {
        reveal_strlit("guard_nb:");
    }
    let m = match find_sub(line, "guard_nb:") {
        Some(m) => m,
        None => {
            return Err(CalibrationError::MarkerMissing);
        },
    };
    let mlen = "guard_nb:".unicode_len();
    let llen = line.unicode_len();
    let sp = find_char(line, m + mlen, ' ');
    let ghost after = line@.skip(m + marker().len());
    proof {
        reveal_strlit("guard_nb:");
        lemma_idx_of_is_from(line@, m + mlen, sp as int, ' ');
        assert(after =~= line@.skip((m + mlen) as int));
    }
    if sp >= llen {
        proof {
            assert(idx_of(after, ' ') == after.len());
        }
        return Err(CalibrationError::MarkerMissing);
    }
    proof {
        assert(idx_of(after, ' ') < after.len());
        assert(line@.subrange((m + mlen) as int, sp as int) =~= after.take(idx_of(after, ' ')));
    }
    let field = line.substring_char(m + mlen, sp);
    match crate::text::parse_u32(field) {
        Some(v) => Ok(v),
        None => Err(CalibrationError::Unparsable),
    }
}

/// First index at which `pat` occurs in `s`, if it does.
fn find_sub(s: &str, pat: &str) -> (r: Option<usize>)
    requires
        pat@.len() > 0,
    ensures
        match r {
            Some(i) => 0 <= i && i + pat@.len() <= s@.len() && sub_idx(s@, pat@) == i,
            None => sub_idx(s@, pat@) == -1,
        },
{
    let len = s.unicode_len();
    let plen = pat.unicode_len();
    if plen > len {
        proof {
            lemma_sub_idx_none(s@, pat@);
        }
        return None;
    }
    let mut i: usize = 0;
    while i <= len - plen
        invariant
            0 <= i <= len - plen + 1,
            1 <= plen <= len,
            len == s@.len(),
            plen == pat@.len(),
            forall|k: int| 0 <= k < i ==> #[trigger] s@.subrange(k, k + pat@.len()) != pat@,
        decreases len - i,
    {
        let piece = s.substring_char(i, i + plen);
        if crate::text::str_eq(piece, pat) {
            proof {
                lemma_sub_idx_is(s@, pat@, i as int);
            }
            return Some(i);
        }
        i = i + 1;
    }
    proof {
        lemma_sub_idx_none(s@, pat@);
    }
    None
}

/// First index of `c` at or after `from`, or the length when `c` does
/// not occur there.
pub(crate) fn find_char(s: &str, from: usize, c: char) -> (r: usize)
    requires
        from <= s@.len(),
    ensures
        from <= r <= s@.len(),
        forall|k: int| from <= k < r ==> s@[k] != c,
        r < s@.len() ==> s@[r as int] == c,
{
    let len = s.unicode_len();
    let mut i: usize = from;
    while i < len
        invariant
            from <= i <= len,
            len == s@.len(),
            forall|k: int| from <= k < i ==> s@[k] != c,
        decreases len - i,
    {
        if s.get_char(i) == c {
            return i;
        }
        i = i + 1;
    }
    len
}

/// Scanning facts translated to the suffix the specification speaks of.
pub(crate) proof fn lemma_idx_of_is_from(s: Seq<char>, from: int, r: int, c: char)
    requires
        0 <= from <= r <= s.len(),
        forall|k: int| from <= k < r ==> s[k] != c,
        r < s.len() ==> s[r] == c,
    ensures
        idx_of(s.skip(from), c) == r - from,
{
    assert forall|k: int| 0 <= k < r - from implies s.skip(from)[k] != c by {
        assert(s.skip(from)[k] == s[k + from]);
    }
    assert(r - from < s.skip(from).len() ==> s.skip(from)[r - from] == s[r]);
    lemma_idx_of_is(s.skip(from), c, r - from);
}

} // verus!
