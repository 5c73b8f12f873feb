use vstd::prelude::*;

use crate::cnf::print::{digits_of, write_u64};

verus! {

pub const SPACE: u8 = 32;

pub const POINT: u8 = 46;

pub const DIGIT_ZERO: u8 = 48;

pub const LETTER_M: u8 = 109;

pub const LETTER_N: u8 = 110;

pub const LETTER_S: u8 = 115;

pub const LETTER_U: u8 = 117;

/// A number below 1000 in at least `width` places, at most three, filled up
/// with `fill` in front.
pub open spec fn padded(n: nat, width: nat, fill: u8) -> Seq<u8> {
    (if width >= 3 && n < 100 {
        seq![fill]
    } else {
        Seq::<u8>::empty()
    }) + (if width >= 2 && n < 10 {
        seq![fill]
    } else {
        Seq::<u8>::empty()
    }) + digits_of(n)
}

/// A number in groups of three digits, a space behind each group.
pub open spec fn groups(n: nat) -> Seq<u8>
    decreases n,
{
    if n < 1000 {
        digits_of(n).push(SPACE)
    } else {
        groups(n / 1000) + padded(n % 1000, 3, DIGIT_ZERO).push(SPACE)
    }
}

/// How a long time is written, in seconds: `1 234 s`.
pub open spec fn long_seconds_text(seconds: nat) -> Seq<u8> {
    groups(seconds).push(LETTER_S)
}

/// A number with the places behind the point: `whole.part unit`, the part in
/// `places` digits.
pub open spec fn fraction_text(whole: nat, part: nat, places: nat, unit: Seq<u8>) -> Seq<u8> {
    digits_of(whole).push(POINT) + padded(part, places, DIGIT_ZERO).push(SPACE) + unit
}

/// The time `ns`, in nanoseconds, with half of the last place that is
/// written added, so that cutting it rounds it.
pub open spec fn rounded(ns: nat, unit: nat) -> nat {
    ns + ns % unit
}

/// How a time is written: in four digits with the unit that fits, `ns`,
/// `us`, `ms` or `s`, from 1000 seconds on in whole seconds. The time is
/// given in nanoseconds, or, where it is too long for that, in
/// milliseconds.
pub open spec fn duration_text(ns: Option<i64>, ms: i64) -> Seq<u8> {
    match ns {
        Some(ns) => {
            let ns = ns as nat;
            if ns >= 999_950_000_000 {
                long_seconds_text(rounded(ns, 1_000_000_000) / 1_000_000_000)
            } else if ns >= 99_995_000_000 {
                let r = rounded(ns, 100_000_000);
                fraction_text(r / 1_000_000_000, r % 1_000_000_000 / 100_000_000, 1, seq![LETTER_S])
            } else if ns >= 9_999_500_000 {
                let r = rounded(ns, 10_000_000);
                fraction_text(r / 1_000_000_000, r % 1_000_000_000 / 10_000_000, 2, seq![LETTER_S])
            } else if ns >= 999_950_000 {
                let r = rounded(ns, 1_000_000);
                fraction_text(r / 1_000_000_000, r % 1_000_000_000 / 1_000_000, 3, seq![LETTER_S])
            } else if ns >= 99_995_000 {
                let r = rounded(ns, 100_000);
                fraction_text(r / 1_000_000, r % 1_000_000 / 100_000, 1, seq![LETTER_M, LETTER_S])
            } else if ns >= 9_999_500 {
                let r = rounded(ns, 10_000);
                fraction_text(r / 1_000_000, r % 1_000_000 / 10_000, 2, seq![LETTER_M, LETTER_S])
            } else if ns >= 999_950 {
                let r = rounded(ns, 1_000);
                fraction_text(r / 1_000_000, r % 1_000_000 / 1_000, 3, seq![LETTER_M, LETTER_S])
            } else if ns >= 99_995 {
                let r = rounded(ns, 100);
                fraction_text(r / 1_000, r % 1_000 / 100, 1, seq![LETTER_U, LETTER_S])
            } else if ns >= 10_000 {
                let r = rounded(ns, 10);
                fraction_text(r / 1_000, r % 1_000 / 10, 2, seq![LETTER_U, LETTER_S])
            } else if ns >= 1_000 {
                fraction_text(ns / 1_000, ns % 1_000, 3, seq![LETTER_U, LETTER_S])
            } else {
                padded(ns, 3, SPACE).push(SPACE).push(LETTER_N).push(LETTER_S)
            }
        },
        None => long_seconds_text(rounded(ms as nat, 1_000) / 1_000),
    }
}

/// Writes a number below 1000 in at least `width` places behind what `out`
/// holds.
pub fn write_padded(out: &mut Vec<u8>, n: u64, width: usize, fill: u8)
    ensures
        final(out)@ == old(out)@ + padded(n as nat, width as nat, fill),
{
    if width >= 3 && n < 100 {
        out.push(fill);
    }
    if width >= 2 && n < 10 {
        out.push(fill);
    }
    write_u64(out, n);
    proof {
        assert(final(out)@ =~= old(out)@ + padded(n as nat, width as nat, fill));
    }
}

/// Writes a number in groups of three digits behind what `out` holds.
pub fn write_groups(out: &mut Vec<u8>, n: u64)
    ensures
        final(out)@ == old(out)@ + groups(n as nat),
    decreases n,
{
    if n >= 1000 {
        write_groups(out, n / 1000);
        write_padded(out, n % 1000, 3, DIGIT_ZERO);
    } else {
        write_u64(out, n);
    }
    out.push(SPACE);
    proof {
        assert(final(out)@ =~= old(out)@ + groups(n as nat));
    }
}

/// Writes a long time, in seconds.
pub fn format_long_seconds(out: &mut Vec<u8>, seconds: u64)
    ensures
        final(out)@ == old(out)@ + long_seconds_text(seconds as nat),
{
    write_groups(out, seconds);
    out.push(LETTER_S);
    proof {
        assert(final(out)@ =~= old(out)@ + long_seconds_text(seconds as nat));
    }
}

/// Writes `whole.part unit`, the part in `places` digits.
pub fn write_fraction(out: &mut Vec<u8>, whole: u64, part: u64, places: usize, unit: &[u8])
    ensures
        final(out)@ == old(out)@ + fraction_text(whole as nat, part as nat, places as nat, unit@),
{
    write_u64(out, whole);
    out.push(POINT);
    write_padded(out, part, places, DIGIT_ZERO);
    out.push(SPACE);
    let ghost body = out@;
    let mut i: usize = 0;
    while i < unit.len()
        invariant
            i <= unit@.len(),
            out@ == body + unit@.take(i as int),
        decreases unit@.len() - i,
    {
        out.push(unit[i]);
        proof {
            assert(unit@.take(i + 1) =~= unit@.take(i as int).push(unit@[i as int]));
        }
        i += 1;
    }
    proof {
        assert(unit@.take(unit@.len() as int) =~= unit@);
        assert(out@ =~= old(out)@ + fraction_text(whole as nat, part as nat, places as nat, unit@));
    }
}

/// The text that tells a time: see `duration_text`. The time is given in
/// nanoseconds, or, where it is too long for that, in milliseconds.
pub fn format_duration(ns: Option<i64>, ms: i64) -> (text: Vec<u8>)
    requires
        match ns {
            Some(ns) => ns >= 0,
            None => ms >= 0,
        },
    ensures
        text@ == duration_text(ns, ms),
{
    let mut out: Vec<u8> = Vec::new();
    let unit_s: [u8; 1] = [LETTER_S];
    let unit_ms: [u8; 2] = [LETTER_M, LETTER_S];
    let unit_us: [u8; 2] = [LETTER_U, LETTER_S];
    proof {
        assert(unit_s@ =~= seq![LETTER_S]);
        assert(unit_ms@ =~= seq![LETTER_M, LETTER_S]);
        assert(unit_us@ =~= seq![LETTER_U, LETTER_S]);
    }
    match ns {
        Some(ns) => {
            let ns: u64 = ns as u64;
            if ns >= 999_950_000_000 {
                let r: u64 = ns + ns % 1_000_000_000;
                format_long_seconds(&mut out, r / 1_000_000_000);
            } else if ns >= 99_995_000_000 {
                let r: u64 = ns + ns % 100_000_000;
                write_fraction(&mut out, r / 1_000_000_000, r % 1_000_000_000 / 100_000_000, 1, unit_s.as_slice());
            } else if ns >= 9_999_500_000 {
                let r: u64 = ns + ns % 10_000_000;
                write_fraction(&mut out, r / 1_000_000_000, r % 1_000_000_000 / 10_000_000, 2, unit_s.as_slice());
            } else if ns >= 999_950_000 {
                let r: u64 = ns + ns % 1_000_000;
                write_fraction(&mut out, r / 1_000_000_000, r % 1_000_000_000 / 1_000_000, 3, unit_s.as_slice());
            } else if ns >= 99_995_000 {
                let r: u64 = ns + ns % 100_000;
                write_fraction(&mut out, r / 1_000_000, r % 1_000_000 / 100_000, 1, unit_ms.as_slice());
            } else if ns >= 9_999_500 {
                let r: u64 = ns + ns % 10_000;
                write_fraction(&mut out, r / 1_000_000, r % 1_000_000 / 10_000, 2, unit_ms.as_slice());
            } else if ns >= 999_950 {
                let r: u64 = ns + ns % 1_000;
                write_fraction(&mut out, r / 1_000_000, r % 1_000_000 / 1_000, 3, unit_ms.as_slice());
            } else if ns >= 99_995 {
                let r: u64 = ns + ns % 100;
                write_fraction(&mut out, r / 1_000, r % 1_000 / 100, 1, unit_us.as_slice());
            } else if ns >= 10_000 {
                let r: u64 = ns + ns % 10;
                write_fraction(&mut out, r / 1_000, r % 1_000 / 10, 2, unit_us.as_slice());
            } else if ns >= 1_000 {
                write_fraction(&mut out, ns / 1_000, ns % 1_000, 3, unit_us.as_slice());
            } else {
                write_padded(&mut out, ns, 3, SPACE);
                out.push(SPACE);
                out.push(LETTER_N);
                out.push(LETTER_S);
            }
        },
        None => {
            let ms: u64 = ms as u64;
            let r: u64 = ms + ms % 1_000;
            format_long_seconds(&mut out, r / 1_000);
        },
    }
    proof {
        assert(out@ =~= duration_text(ns, ms));
    }
    out
}

} // verus!
