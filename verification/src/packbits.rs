//! PackBits run-length coding.
use vstd::prelude::*;

verus! {

/// The bytes that the packed runs of `src` stand for.
///
/// A control byte below 128 announces one more literal byte than its value, 128 stands for
/// nothing, and a larger one repeats the byte after it `257 - control` times. A literal run that
/// the source cuts short ends there; a repeated byte that the source lacks is 0.
pub open spec fn expand(src: Seq<u8>) -> Seq<u8>
    decreases src.len(),
{
    if src.len() == 0 {
        seq![]
    } else if src[0] < 128 {
        if src.len() <= src[0] + 2 {
            src.skip(1)
        } else {
            src.subrange(1, src[0] + 2) + expand(src.skip(src[0] + 2))
        }
    } else if src[0] == 128 {
        expand(src.skip(1))
    } else if src.len() == 1 {
        Seq::new((257 - src[0]) as nat, |i: int| 0u8)
    } else {
        Seq::new((257 - src[0]) as nat, |i: int| src[1]) + expand(src.skip(2))
    }
}

/// `s` cut to `n` bytes, or filled up to them with 0.
pub open spec fn fit(s: Seq<u8>, n: nat) -> Seq<u8> {
    Seq::new(n, |i: int| if i < s.len() { s[i] } else { 0 })
}

/// How many bytes `src` expands to, where its last run ends exactly at its end.
pub open spec fn packed_len(src: Seq<u8>) -> Option<nat>
    decreases src.len(),
{
    if src.len() == 0 {
        Some(0)
    } else if src[0] < 128 {
        if src.len() < src[0] + 2 {
            None
        } else {
            match packed_len(src.skip(src[0] + 2)) {
                Some(n) => Some((n + src[0] + 1) as nat),
                None => None,
            }
        }
    } else if src[0] == 128 {
        packed_len(src.skip(1))
    } else if src.len() < 2 {
        None
    } else {
        match packed_len(src.skip(2)) {
            Some(n) => Some((n + 257 - src[0]) as nat),
            None => None,
        }
    }
}

/// A source whose runs end exactly expands to the length that its runs announce.
pub proof fn packed_len_is_expanded_len(src: Seq<u8>)
    ensures
        packed_len(src) matches Some(n) ==> expand(src).len() == n,
    decreases src.len(),
{
    if src.len() == 0 {
    } else if src[0] < 128 {
        if src.len() == src[0] + 2 {
            let rest = src.skip(src[0] + 2);
            assert(rest.len() == 0 && packed_len(rest) == Some(0nat));
        } else if src.len() > src[0] + 2 {
            packed_len_is_expanded_len(src.skip(src[0] + 2));
        }
    } else if src[0] == 128 {
        packed_len_is_expanded_len(src.skip(1));
    } else if src.len() >= 2 {
        packed_len_is_expanded_len(src.skip(2));
    }
}

/// Expands `src` into all of `out`. What the source does not reach is filled with 0.
#[verifier::spinoff_prover]
pub fn unpack_bits(src: &[u8], out: &mut [u8])
    ensures
        final(out)@ == fit(expand(src@), old(out)@.len()),
{
    let n: usize = out.len();
    let len: usize = src.len();
    let mut i: usize = 0;
    let mut o: usize = 0;
    assert(src@.skip(0) =~= src@);
    while i < len && o < n
        invariant
            i <= len == src@.len(),
            o <= n == out@.len(),
            old(out)@.len() == n,
            o < n ==> expand(src@) =~= out@.take(o as int) + expand(src@.skip(i as int)),
            o == n ==> expand(src@).len() >= n && out@ =~= expand(src@).take(n as int),
        decreases len - i,
    {
        let ghost rest = src@.skip(i as int);
        let ghost before = out@.take(o as int);
        let c: u8 = src[i];
        i = i + 1;
        if c < 128 {
            let run: usize = c as usize + 1;
            let mut j: usize = 0;
            while j < run && i < len && o < n
                invariant
                    j <= run == c + 1,
                    i <= len == src@.len(),
                    o <= n == out@.len(),
                    rest == src@.skip(i - j - 1),
                    1 + j <= rest.len(),
                    i - j - 1 >= 0,
                    before.len() + j == o,
                    out@.take(o as int) =~= before + rest.subrange(1, 1 + j),
                decreases run - j,
            {
                let ghost prev = out@;
                out[o] = src[i];
                assert(out@.take(o + 1) =~= prev.take(o as int).push(src@[i as int]));
                assert(src@[i as int] == rest[1 + j]);
                assert(rest.subrange(1, 2 + j) =~= rest.subrange(1, 1 + j).push(rest[1 + j]));
                i = i + 1;
                o = o + 1;
                j = j + 1;
            }
            proof {
                if j == run {
                    if rest.len() > c + 2 {
                        assert(rest.skip(c + 2) =~= src@.skip(i as int));
                    } else {
                        assert(rest.subrange(1, 1 + j) =~= rest.skip(1));
                        assert(src@.skip(i as int) =~= Seq::<u8>::empty());
                    }
                } else if i == len {
                    assert(rest.subrange(1, 1 + j) =~= rest.skip(1));
                    assert(src@.skip(i as int) =~= Seq::<u8>::empty());
                } else {
                    assert(o == n);
                    assert(expand(rest).take(j as int) =~= rest.subrange(1, 1 + j));
                    assert(expand(src@).take(n as int) =~= before + expand(rest).take(j as int));
                }
                if o == n {
                    assert(out@ =~= out@.take(n as int));
                }
            }
        } else if c > 128 {
            let count: usize = 257 - c as usize;
            let value: u8 = if i < len { src[i] } else { 0 };
            let mut j: usize = 0;
            while j < count && o < n
                invariant
                    j <= count,
                    o <= n == out@.len(),
                    before.len() + j == o,
                    out@.take(o as int) =~= before + Seq::new(j as nat, |k: int| value),
                decreases count - j,
            {
                let ghost prev = out@;
                out[o] = value;
                assert(out@.take(o + 1) =~= prev.take(o as int).push(value));
                o = o + 1;
                j = j + 1;
            }
            if i < len {
                i = i + 1;
            }
            proof {
                let ghost run = Seq::new(count as nat, |k: int| value);
                if rest.len() >= 2 {
                    assert(rest.skip(2) =~= src@.skip(i as int));
                } else {
                    assert(src@.skip(i as int) =~= Seq::<u8>::empty());
                }
                assert(expand(rest) =~= run + expand(src@.skip(i as int)));
                assert(expand(src@) =~= before + run + expand(src@.skip(i as int)));
                if o == n {
                    assert(out@ =~= out@.take(n as int));
                    assert(expand(src@).take(n as int) =~= out@);
                }
            }
        } else {
            assert(rest.skip(1) =~= src@.skip(i as int));
        }
    }
    proof {
        if o < n {
            assert(src@.skip(i as int) =~= Seq::<u8>::empty());
            assert(expand(src@) =~= out@.take(o as int));
        }
    }
    let ghost done = expand(src@);
    while o < n
        invariant
            o <= n == out@.len(),
            done == expand(src@),
            forall|k: int| 0 <= k < o ==> out@[k] == #[trigger] fit(done, n as nat)[k],
            o < n ==> done.len() <= o,
        decreases n - o,
    {
        out[o] = 0;
        o = o + 1;
    }
    assert(out@ =~= fit(done, n as nat));
}

/// Whether the runs of `src` end exactly at its end and stand for `width` bytes.
pub fn expands_to(src: &[u8], width: u64) -> (r: bool)
    ensures
        r == (packed_len(src@) == Some(width as nat)),
{
    let len: usize = src.len();
    let mut i: usize = 0;
    let mut done: u64 = 0;
    assert(src@.skip(0) =~= src@);
    while i < len
        invariant
            i <= len == src@.len(),
            done <= width,
            packed_len(src@) == (match packed_len(src@.skip(i as int)) {
                Some(n) => Some((n + done) as nat),
                None => None,
            }),
        decreases len - i,
    {
        let ghost rest = src@.skip(i as int);
        let c: u8 = src[i];
        if c == 128 {
            i = i + 1;
            assert(rest.skip(1) =~= src@.skip(i as int));
        } else {
            let step: usize = if c < 128 { c as usize + 2 } else { 2 };
            let run: u64 = if c < 128 { c as u64 + 1 } else { 257 - c as u64 };
            if step > len - i || run > width - done {
                return false;
            }
            i = i + step;
            done = done + run;
            assert(rest.skip(step as int) =~= src@.skip(i as int));
        }
    }
    assert(src@.skip(i as int).len() == 0);
    done == width
}

/// One run of a packer.
pub enum Run {
    /// These bytes as they are.
    Literal(Seq<u8>),
    /// One byte, so many times.
    Repeat { value: u8, count: int },
    /// Nothing.
    Nothing,
}

impl Run {
    /// Whether a control byte can announce the run.
    pub open spec fn fits(self) -> bool {
        match self {
            Run::Literal(b) => 1 <= b.len() <= 128,
            Run::Repeat { value, count } => 2 <= count <= 128,
            Run::Nothing => true,
        }
    }

    /// The run as a packer writes it: what is announced as 0 to 127 is one literal byte more, a
    /// repetition is announced by its count below 257, and nothing by 128.
    pub open spec fn packed(self) -> Seq<u8> {
        match self {
            Run::Literal(b) => seq![(b.len() - 1) as u8] + b,
            Run::Repeat { value, count } => seq![(257 - count) as u8, value],
            Run::Nothing => seq![128u8],
        }
    }

    /// The bytes that the run stands for.
    pub open spec fn unpacked(self) -> Seq<u8> {
        match self {
            Run::Literal(b) => b,
            Run::Repeat { value, count } => Seq::new(count as nat, |i: int| value),
            Run::Nothing => seq![],
        }
    }
}

/// Whether all the runs can be announced.
pub open spec fn runs_fit(runs: Seq<Run>) -> bool {
    forall|i: int| 0 <= i < runs.len() ==> (#[trigger] runs[i]).fits()
}

/// The runs as a packer writes them.
pub open spec fn packed_runs(runs: Seq<Run>) -> Seq<u8>
    decreases runs.len(),
{
    if runs.len() == 0 {
        seq![]
    } else {
        runs[0].packed() + packed_runs(runs.skip(1))
    }
}

/// The bytes that the runs stand for.
pub open spec fn unpacked_runs(runs: Seq<Run>) -> Seq<u8>
    decreases runs.len(),
{
    if runs.len() == 0 {
        seq![]
    } else {
        runs[0].unpacked() + unpacked_runs(runs.skip(1))
    }
}

/// What was packed is unpacked, and its length is known.
pub proof fn packed_bytes_are_read_back(runs: Seq<Run>)
    requires
        runs_fit(runs),
    ensures
        expand(packed_runs(runs)) == unpacked_runs(runs),
        packed_len(packed_runs(runs)) == Some(unpacked_runs(runs).len()),
    decreases runs.len(),
{
    if runs.len() > 0 {
        let rest = runs.skip(1);
        assert forall|i: int| 0 <= i < rest.len() implies (#[trigger] rest[i]).fits() by {
            assert(rest[i] == runs[i + 1]);
        }
        packed_bytes_are_read_back(rest);
        let src = packed_runs(runs);
        let tail = packed_runs(rest);
        assert(runs[0].fits());
        match runs[0] {
            Run::Literal(b) => {
                assert(src[0] == b.len() - 1);
                assert(src.skip(src[0] + 2) =~= tail);
                assert(src.subrange(1, src[0] + 2) =~= b);
                if tail.len() == 0 {
                    assert(src.skip(1) =~= b);
                    assert(unpacked_runs(rest) =~= expand(tail));
                }
                assert(expand(src) =~= unpacked_runs(runs));
            },
            Run::Repeat { value, count } => {
                assert(src[0] == 257 - count && src[1] == value);
                assert(src.skip(2) =~= tail);
                assert(expand(src) =~= unpacked_runs(runs));
            },
            Run::Nothing => {
                assert(src[0] == 128);
                assert(src.skip(1) =~= tail);
                assert(expand(src) =~= unpacked_runs(runs));
            },
        }
    }
}

/// Bytes whose runs end exactly at their end are what a packer writes for some runs.
pub proof fn exact_bytes_are_packed(src: Seq<u8>) -> (runs: Seq<Run>)
    requires
        packed_len(src) is Some,
    ensures
        runs_fit(runs),
        packed_runs(runs) == src,
        unpacked_runs(runs) == expand(src),
        unpacked_runs(runs).len() == packed_len(src)->0,
    decreases src.len(),
{
    if src.len() == 0 {
        seq![]
    } else {
        let (first, tail) = if src[0] < 128 {
            (Run::Literal(src.subrange(1, src[0] + 2)), src.skip(src[0] + 2))
        } else if src[0] == 128 {
            (Run::Nothing, src.skip(1))
        } else {
            (Run::Repeat { value: src[1], count: 257 - src[0] }, src.skip(2))
        };
        let rest = exact_bytes_are_packed(tail);
        let runs = seq![first] + rest;
        assert(runs.skip(1) =~= rest);
        assert forall|i: int| 0 <= i < runs.len() implies (#[trigger] runs[i]).fits() by {
            if i > 0 {
                assert(runs[i] == rest[i - 1]);
            }
        }
        assert(packed_runs(runs) =~= src);
        packed_bytes_are_read_back(runs);
        runs
    }
}

/// A literal run that is cut short stands for the bytes that are there, and a repeated byte that is
/// not there for zeros.
pub proof fn cut_runs_end_there(before: Seq<Run>, control: u8, b: Seq<u8>)
    requires
        runs_fit(before),
        control < 128 ==> b.len() <= control,
        control >= 128 ==> control > 128 && b.len() == 0,
    ensures
        expand(packed_runs(before) + (seq![control] + b)) == unpacked_runs(before) + if control
            < 128 {
            b
        } else {
            Seq::new((257 - control) as nat, |i: int| 0u8)
        },
        packed_len(packed_runs(before) + (seq![control] + b)) is None,
    decreases before.len(),
{
    let cut = seq![control] + b;
    let src = packed_runs(before) + cut;
    if before.len() == 0 {
        assert(src =~= cut);
        assert(src.skip(1) =~= b);
        assert(expand(src) =~= unpacked_runs(before) + if control < 128 {
            b
        } else {
            Seq::new((257 - control) as nat, |i: int| 0u8)
        });
    } else {
        let rest = before.skip(1);
        assert forall|i: int| 0 <= i < rest.len() implies (#[trigger] rest[i]).fits() by {
            assert(rest[i] == before[i + 1]);
        }
        cut_runs_end_there(rest, control, b);
        let tail = packed_runs(rest) + cut;
        assert(before[0].fits());
        match before[0] {
            Run::Literal(l) => {
                assert(src[0] == l.len() - 1);
                assert(src.skip(src[0] + 2) =~= tail);
                assert(src.subrange(1, src[0] + 2) =~= l);
            },
            Run::Repeat { value, count } => {
                assert(src[0] == 257 - count && src[1] == value);
                assert(src.skip(2) =~= tail);
            },
            Run::Nothing => {
                assert(src[0] == 128);
                assert(src.skip(1) =~= tail);
            },
        }
        assert(expand(src) =~= before[0].unpacked() + expand(tail));
        assert(expand(src) =~= unpacked_runs(before) + if control < 128 {
            b
        } else {
            Seq::new((257 - control) as nat, |i: int| 0u8)
        });
    }
}

/// A row has its width: it is cut off there, or filled up with zeros.
pub proof fn rows_have_their_width(s: Seq<u8>, n: nat)
    ensures
        fit(s, n).len() == n,
        s.len() >= n ==> fit(s, n) == s.take(n as int),
        s.len() <= n ==> fit(s, n).take(s.len() as int) == s,
        forall|i: int| s.len() <= i < n ==> #[trigger] fit(s, n)[i] == 0,
{
    if s.len() >= n {
        assert(fit(s, n) =~= s.take(n as int));
    } else {
        assert(fit(s, n).take(s.len() as int) =~= s);
    }
}

} // verus!
