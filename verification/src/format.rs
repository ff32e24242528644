//! Renders a span of seconds as readable text: "2 days, 3 hours and 1 minute".

use vstd::prelude::*;

use crate::text::{dec_digits, format_u64, join_sep};

verus! {

/// The non-zero units of a span, largest first, each rendered with its
/// (singular or plural) unit name.
pub open spec fn time_segments(secs: nat) -> Seq<Seq<char>> {
    let d = secs / 86400;
    let h = (secs % 86400) / 3600;
    let m = (secs % 3600) / 60;
    let s = secs % 60;
    maybe_segment(d, seq!['d', 'a', 'y']) + maybe_segment(h, seq!['h', 'o', 'u', 'r'])
        + maybe_segment(m, seq!['m', 'i', 'n', 'u', 't', 'e']) + maybe_segment(
        s,
        seq!['s', 'e', 'c', 'o', 'n', 'd'],
    )
}

pub open spec fn maybe_segment(n: nat, unit: Seq<char>) -> Seq<Seq<char>> {
    if n > 0 {
        seq![pluralized(n, unit)]
    } else {
        Seq::empty()
    }
}

/// "1 day" but "2 days".
pub open spec fn pluralized(n: nat, unit: Seq<char>) -> Seq<char> {
    dec_digits(n) + seq![' '] + if n > 1 {
        unit + seq!['s']
    } else {
        unit
    }
}

/// The segments joined for reading: commas between the early ones and the
/// word "and" before the last.
pub open spec fn readable(segs: Seq<Seq<char>>) -> Seq<char> {
    if segs.len() <= 1 {
        join_sep(segs, ' ')
    } else {
        let decorated = Seq::new(
            segs.len(),
            |i: int|
                if i < segs.len() - 2 {
                    segs[i] + seq![',']
                } else {
                    segs[i]
                },
        );
        join_sep(decorated.insert(segs.len() - 1, seq!['a', 'n', 'd']), ' ')
    }
}

/// The whole rendering of a span of seconds.
pub open spec fn format_seconds_spec(secs: nat) -> Seq<char> {
    readable(time_segments(secs))
}

/// Renders one unit's segment.
fn segment(n: u64, singular: &str, plural: &str) -> (r: String)
    requires
        n >= 1,
        plural@ == singular@ + seq!['s'],
    ensures
        r@ == pluralized(n as nat, singular@),
{
    proof {
        reveal_strlit(" ");
    }
    let mut out = format_u64(n);
    out.append(" ");
    if n > 1 {
        out.append(plural);
    } else {
        out.append(singular);
    }
    proof {
        assert(out@ =~= pluralized(n as nat, singular@));
    }
    out
}

/// Renders a span of seconds as readable text.
pub fn format_seconds(secs: u64) -> (r: String)
    ensures
        r@ == format_seconds_spec(secs as nat),
{
    proof {
        reveal_strlit("day");
        reveal_strlit("days");
        reveal_strlit("hour");
        reveal_strlit("hours");
        reveal_strlit("minute");
        reveal_strlit("minutes");
        reveal_strlit("second");
        reveal_strlit("seconds");
        reveal_strlit("and");
        reveal_strlit(",");
        assert("day"@ =~= seq!['d', 'a', 'y']);
        assert("days"@ =~= seq!['d', 'a', 'y'] + seq!['s']);
        assert("hour"@ =~= seq!['h', 'o', 'u', 'r']);
        assert("hours"@ =~= seq!['h', 'o', 'u', 'r'] + seq!['s']);
        assert("minute"@ =~= seq!['m', 'i', 'n', 'u', 't', 'e']);
        assert("minutes"@ =~= seq!['m', 'i', 'n', 'u', 't', 'e'] + seq!['s']);
        assert("second"@ =~= seq!['s', 'e', 'c', 'o', 'n', 'd']);
        assert("seconds"@ =~= seq!['s', 'e', 'c', 'o', 'n', 'd'] + seq!['s']);
        assert("and"@ =~= seq!['a', 'n', 'd']);
        assert(","@ =~= seq![',']);
    }
    let d = secs / 86400;
    let h = (secs % 86400) / 3600;
    let m = (secs % 3600) / 60;
    let s = secs % 60;
    let mut segs: Vec<String> = Vec::new();
    if d > 0 {
        segs.push(segment(d, "day", "days"));
    }
    if h > 0 {
        segs.push(segment(h, "hour", "hours"));
    }
    if m > 0 {
        segs.push(segment(m, "minute", "minutes"));
    }
    if s > 0 {
        segs.push(segment(s, "second", "seconds"));
    }
    proof {
        assert(crate::text::words_view(segs@) =~= time_segments(secs as nat));
    }
    let n = segs.len();
    if n <= 1 {
        let out = crate::text::join_words(&segs);
        return out;
    }
    // commas after the early segments, "and" before the last
    let mut decorated: Vec<String> = Vec::new();
    let mut i: usize = 0;
    let ghost target = Seq::new(
        crate::text::words_view(segs@).len(),
        |k: int|
            if k < crate::text::words_view(segs@).len() - 2 {
                crate::text::words_view(segs@)[k] + seq![',']
            } else {
                crate::text::words_view(segs@)[k]
            },
    );
    while i < n - 1
        invariant
            0 <= i <= n - 1,
            2 <= n == segs@.len(),
            target == Seq::new(
                crate::text::words_view(segs@).len(),
                |k: int|
                    if k < crate::text::words_view(segs@).len() - 2 {
                        crate::text::words_view(segs@)[k] + seq![',']
                    } else {
                        crate::text::words_view(segs@)[k]
                    },
            ),
            ","@ == seq![','],
            crate::text::words_view(decorated@) == target.take(i as int),
        decreases n - i,
    {
        let ghost dv = crate::text::words_view(decorated@);
        if i < n - 2 {
            let mut piece = segs[i].clone();
            piece.append(",");
            decorated.push(piece);
        } else {
            decorated.push(segs[i].clone());
        }
        proof {
            assert(crate::text::words_view(decorated@) =~= dv.push(target[i as int]));
            assert(crate::text::words_view(decorated@) =~= target.take(i as int + 1));
        }
        i = i + 1;
    }
    let and_word: &str = "and";
    decorated.push(and_word.to_owned());
    let last = segs[n - 1].clone();
    decorated.push(last);
    proof {
        let sv = crate::text::words_view(segs@);
        assert(crate::text::words_view(decorated@) =~= target.take(n - 1 as int).push(
            "and"@,
        ).push(sv[n - 1]));
        assert(target[n - 1] == sv[n - 1]);
        assert(crate::text::words_view(decorated@) =~= target.insert(
            n - 1 as int,
            seq!['a', 'n', 'd'],
        ));
    }
    crate::text::join_words(&decorated)
}

} // verus!
