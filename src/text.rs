//! Small text helpers for the views around the trees: splitting and
//! truncating by characters, status symbols, remaining-time labels and
//! folder labels.

use vstd::prelude::*;
use crate::segments::{split_path, split_segments, views};

verus! {

/// The first `at` characters of `input` (all of them if it is shorter), and
/// the rest.
pub fn utf8_split(input: &str, at: usize) -> (r: (String, String))
    ensures
        at <= input@.len() ==> r.0@ == input@.take(at as int) && r.1@ == input@.skip(at as int),
        at > input@.len() ==> r.0@ == input@ && r.1@.len() == 0,
{
    let n = input.unicode_len();
    let cut = if at < n {
        at
    } else {
        n
    };
    let fst = input.substring_char(0, cut).to_owned();
    let snd = input.substring_char(cut, n).to_owned();
    assert(input@.subrange(0, n as int) == input@);
    (fst, snd)
}

/// The state of a torrent as the download client reports it.
#[derive(Debug, Clone, Copy, PartialEq, Eq, Structural)]
pub enum TorrentStatus {
    Paused,
    VerifyQueued,
    Verifying,
    DownQueued,
    Downloading,
    SeedQueued,
    Seeding,
}

/// The symbol shown for a torrent: the error mark where `err` is not zero,
/// else the symbol of its state.
pub open spec fn status_symbol(x: TorrentStatus, err: i64) -> Seq<char> {
    if err != 0 {
        seq![' ', '\u{2048}']
    } else {
        match x {
            TorrentStatus::Paused => seq![' ', '\u{23f8}', ' '],
            TorrentStatus::VerifyQueued => seq![' ', '\u{1f5d8}'],
            TorrentStatus::Verifying => seq![' ', '\u{1f5d8}'],
            TorrentStatus::DownQueued => seq![' ', '\u{21e9}'],
            TorrentStatus::Downloading => seq![' ', '\u{21e3}'],
            TorrentStatus::SeedQueued => seq![' ', '\u{21e7}'],
            TorrentStatus::Seeding => seq![' ', '\u{21e1}'],
        }
    }
}

/// The symbol of a torrent's state, or the error mark.
pub fn format_status<'a>(x: &TorrentStatus, err: i64) -> (r: &'a str)
    ensures
        r@ == status_symbol(*x, err),
{
    if err != 0 {
        let s = " \u{2048}";
        proof {
            reveal_strlit(" \u{2048}");
        }
        s
    } else {
        match x {
            TorrentStatus::Paused => {
                let s = " \u{23f8} ";
                proof {
                    reveal_strlit(" \u{23f8} ");
                }
                s
            },
            TorrentStatus::VerifyQueued | TorrentStatus::Verifying => {
                let s = " \u{1f5d8}";
                proof {
                    reveal_strlit(" \u{1f5d8}");
                }
                s
            },
            TorrentStatus::DownQueued => {
                let s = " \u{21e9}";
                proof {
                    reveal_strlit(" \u{21e9}");
                }
                s
            },
            TorrentStatus::Downloading => {
                let s = " \u{21e3}";
                proof {
                    reveal_strlit(" \u{21e3}");
                }
                s
            },
            TorrentStatus::SeedQueued => {
                let s = " \u{21e7}";
                proof {
                    reveal_strlit(" \u{21e7}");
                }
                s
            },
            TorrentStatus::Seeding => {
                let s = " \u{21e1}";
                proof {
                    reveal_strlit(" \u{21e1}");
                }
                s
            },
        }
    }
}

/// The character of a decimal digit.
pub open spec fn digit_char(d: nat) -> char {
    if d == 0 {
        '0'
    } else if d == 1 {
        '1'
    } else if d == 2 {
        '2'
    } else if d == 3 {
        '3'
    } else if d == 4 {
        '4'
    } else if d == 5 {
        '5'
    } else if d == 6 {
        '6'
    } else if d == 7 {
        '7'
    } else if d == 8 {
        '8'
    } else {
        '9'
    }
}

/// The decimal digits of `n`, without leading zeros.
pub open spec fn decimal_digits(n: nat) -> Seq<char>
    decreases n,
{
    if n < 10 {
        seq![digit_char(n)]
    } else {
        decimal_digits(n / 10).push(digit_char(n % 10))
    }
}

fn digit_str(d: u64) -> (r: &'static str)
    requires
        d < 10,
    ensures
        r@ == seq![digit_char(d as nat)],
{
    match d {
        0 => {
            let s = "0";
            proof {
                reveal_strlit("0");
            }
            s
        },
        1 => {
            let s = "1";
            proof {
                reveal_strlit("1");
            }
            s
        },
        2 => {
            let s = "2";
            proof {
                reveal_strlit("2");
            }
            s
        },
        3 => {
            let s = "3";
            proof {
                reveal_strlit("3");
            }
            s
        },
        4 => {
            let s = "4";
            proof {
                reveal_strlit("4");
            }
            s
        },
        5 => {
            let s = "5";
            proof {
                reveal_strlit("5");
            }
            s
        },
        6 => {
            let s = "6";
            proof {
                reveal_strlit("6");
            }
            s
        },
        7 => {
            let s = "7";
            proof {
                reveal_strlit("7");
            }
            s
        },
        8 => {
            let s = "8";
            proof {
                reveal_strlit("8");
            }
            s
        },
        _ => {
            let s = "9";
            proof {
                reveal_strlit("9");
            }
            s
        },
    }
}

/// `n` written in decimal.
pub fn decimal(n: u64) -> (r: String)
    ensures
        r@ == decimal_digits(n as nat),
    decreases n,
{
    if n < 10 {
        digit_str(n).to_owned()
    } else {
        let mut s = decimal(n / 10);
        s.append(digit_str(n % 10));
        s
    }
}

/// A time span label: `1d 2h`, `2h 5m`, `5m 3s` or `3s`, by the largest
/// unit present; nothing for -1 (no estimate) and an infinity sign for -2.
/// Other negative spans keep only their seconds, with their sign.
pub open spec fn eta_text(secs: i64) -> Seq<char> {
    if secs == -1 {
        Seq::empty()
    } else if secs == -2 {
        seq!['\u{221e}']
    } else if secs < 0 {
        let r = (-secs) % 60;
        if r == 0 {
            seq!['0', 's']
        } else {
            seq!['-'] + decimal_digits(r as nat) + seq!['s']
        }
    } else {
        let days = secs / 86400;
        let hours = (secs % 86400) / 3600;
        let minutes = (secs % 3600) / 60;
        let rest = secs % 60;
        if days > 0 {
            decimal_digits(days as nat) + seq!['d', ' '] + decimal_digits(hours as nat) + seq!['h']
        } else if hours > 0 {
            decimal_digits(hours as nat) + seq!['h', ' '] + decimal_digits(minutes as nat) + seq!['m']
        } else if minutes > 0 {
            decimal_digits(minutes as nat) + seq!['m', ' '] + decimal_digits(rest as nat) + seq!['s']
        } else {
            decimal_digits(rest as nat) + seq!['s']
        }
    }
}

/// `a`, a unit, a space, `b` and a second unit.
fn two_units(a: u64, ua: &str, b: u64, ub: &str) -> (r: String)
    ensures
        r@ == decimal_digits(a as nat) + ua@ + seq![' '] + decimal_digits(b as nat) + ub@,
{
    let mut s = decimal(a);
    s.append(ua);
    let sp = " ";
    proof {
        reveal_strlit(" ");
    }
    s.append(sp);
    s.append(decimal(b).as_str());
    s.append(ub);
    s
}

/// The remaining-time label of `eta_text`.
pub fn format_eta(secs: i64) -> (r: String)
    ensures
        r@ == eta_text(secs),
{
    proof {
        reveal_strlit("d");
        reveal_strlit("h");
        reveal_strlit("m");
        reveal_strlit("s");
        reveal_strlit("-");
        reveal_strlit("0s");
        reveal_strlit("\u{221e}");
    }
    if secs == -1 {
        String::new()
    } else if secs == -2 {
        "\u{221e}".to_owned()
    } else if secs < 0 {
        let m: u64 = if secs == i64::MIN {
            (i64::MAX as u64) + 1
        } else {
            (-secs) as u64
        };
        let r = m % 60;
        if r == 0 {
            "0s".to_owned()
        } else {
            let mut s = "-".to_owned();
            s.append(decimal(r).as_str());
            s.append("s");
            assert(s@ =~= seq!['-'] + decimal_digits(r as nat) + seq!['s']);
            s
        }
    } else {
        let n = secs as u64;
        let days = n / 86400;
        let hours = (n % 86400) / 3600;
        let minutes = (n % 3600) / 60;
        let rest = n % 60;
        if days > 0 {
            two_units(days, "d", hours, "h")
        } else if hours > 0 {
            two_units(hours, "h", minutes, "m")
        } else if minutes > 0 {
            two_units(minutes, "m", rest, "s")
        } else {
            let mut s = decimal(rest);
            s.append("s");
            s
        }
    }
}

/// The number of bytes of `c` in UTF-8.
pub open spec fn utf8_width(c: char) -> nat {
    if (c as u32) < 0x80 {
        1
    } else if (c as u32) < 0x800 {
        2
    } else if (c as u32) < 0x10000 {
        3
    } else {
        4
    }
}

/// The number of bytes of `s` in UTF-8.
pub open spec fn utf8_size(s: Seq<char>) -> nat
    decreases s.len(),
{
    if s.len() == 0 {
        0
    } else {
        utf8_size(s.drop_last()) + utf8_width(s.last())
    }
}

/// The number of leading characters of `s` kept when it is cut to fewer
/// than `max` bytes: all of them if it is short enough, else the longest
/// prefix under `max` bytes.
pub open spec fn fit_len(s: Seq<char>, max: nat) -> nat
    decreases s.len(),
{
    if utf8_size(s) < max || s.len() == 0 {
        s.len()
    } else {
        fit_len(s.drop_last(), max)
    }
}

proof fn lemma_size_monotone(s: Seq<char>, i: int, j: int)
    requires
        0 <= i <= j <= s.len(),
    ensures
        utf8_size(s.take(i)) <= utf8_size(s.take(j)),
    decreases j - i,
{
    if i < j {
        lemma_size_monotone(s, i, j - 1);
        assert(s.take(j).drop_last() == s.take(j - 1));
    }
}

proof fn lemma_fit_len(s: Seq<char>, max: nat, k: int)
    requires
        0 < max,
        0 <= k <= s.len(),
        utf8_size(s.take(k)) < max,
        k < s.len() ==> utf8_size(s.take(k + 1)) >= max,
    ensures
        fit_len(s, max) == k,
    decreases s.len(),
{
    assert(s.take(s.len() as int) == s);
    if k < s.len() {
        lemma_size_monotone(s, k + 1, s.len() as int);
        let pre = s.drop_last();
        assert(pre.take(k) == s.take(k));
        if k < pre.len() {
            assert(pre.take(k + 1) == s.take(k + 1));
        }
        lemma_fit_len(pre, max, k);
    }
}

/// The UTF-8 width of a character.
fn char_width(c: char) -> (r: usize)
    ensures
        r == utf8_width(c),
{
    if (c as u32) < 0x80 {
        1
    } else if (c as u32) < 0x800 {
        2
    } else if (c as u32) < 0x10000 {
        3
    } else {
        4
    }
}

/// Cuts `input` to fewer than `maxsize` bytes, at a character boundary,
/// where it has `maxsize` bytes or more.
pub fn utf8_truncate(input: &mut String, maxsize: usize)
    requires
        maxsize > 0,
    ensures
        final(input)@ == old(input)@.take(fit_len(old(input)@, maxsize as nat) as int),
{
    let n = input.as_str().unicode_len();
    let mut k: usize = 0;
    let mut size: usize = 0;
    assert(input@.take(0) == Seq::<char>::empty());
    while k < n
        invariant
            n == input@.len(),
            k <= n,
            size == utf8_size(input@.take(k as int)),
            size < maxsize,
        ensures
            k <= n,
            size == utf8_size(input@.take(k as int)),
            size < maxsize,
            k < n ==> utf8_size(input@.take(k + 1)) >= maxsize,
        decreases n - k,
    {
        let w = char_width(input.as_str().get_char(k));
        assert(input@.take(k + 1).drop_last() == input@.take(k as int));
        if w >= maxsize - size {
            break;
        }
        size = size + w;
        k = k + 1;
    }
    proof {
        lemma_fit_len(input@, maxsize as nat, k as int);
    }
    if k < n {
        let kept = input.as_str().substring_char(0, k).to_owned();
        *input = kept;
    } else {
        assert(input@.take(n as int) == input@);
    }
}

/// `s` with every occurrence of `p` taken out, matched left to right
/// without overlap; `s` itself where `p` is empty.
pub open spec fn remove_all(s: Seq<char>, p: Seq<char>) -> Seq<char>
    decreases s.len(),
{
    if p.len() == 0 || s.len() == 0 {
        s
    } else if p.len() <= s.len() && s.take(p.len() as int) == p {
        remove_all(s.skip(p.len() as int), p)
    } else {
        seq![s[0]] + remove_all(s.drop_first(), p)
    }
}

/// `s` with every occurrence of `p` taken out.
fn remove_occurrences(s: &str, p: &str) -> (r: String)
    ensures
        r@ == remove_all(s@, p@),
{
    let n = s.unicode_len();
    let m = p.unicode_len();
    if m == 0 {
        return s.to_owned();
    }
    let pat = p.to_owned();
    let mut out = String::new();
    let mut i: usize = 0;
    assert(s@.skip(0) == s@);
    while i < n
        invariant
            n == s@.len(),
            m == p@.len(),
            m > 0,
            pat@ == p@,
            i <= n,
            out@ + remove_all(s@.skip(i as int), p@) == remove_all(s@, p@),
        decreases n - i,
    {
        let ghost t = s@.skip(i as int);
        let matched = if m <= n - i {
            let sub = s.substring_char(i, i + m).to_owned();
            assert(t.take(m as int) == s@.subrange(i as int, i + m));
            sub == pat
        } else {
            false
        };
        if matched {
            assert(t.skip(m as int) == s@.skip(i + m));
            i = i + m;
        } else {
            let ghost old_out = out@;
            let c = s.substring_char(i, i + 1);
            assert(t.drop_first() == s@.skip(i + 1));
            assert(c@ == seq![t[0]]);
            out.append(c);
            assert(remove_all(t, p@) == seq![t[0]] + remove_all(s@.skip(i + 1), p@));
            assert(out@ + remove_all(s@.skip(i + 1), p@) =~= old_out + remove_all(t, p@));
            i = i + 1;
        }
    }
    assert(s@.skip(n as int) =~= Seq::<char>::empty());
    assert(out@ + Seq::<char>::empty() == out@);
    out
}

/// The label of a download folder relative to the base directory: the
/// last segment where the folder is the base itself; else the folder with
/// the base taken out and one leading `/` dropped, cut to its last two
/// segments where it has more than one.
pub open spec fn folder_label(s: Seq<char>, base: Seq<char>) -> Seq<char> {
    if s == base {
        split_segments(s).last()
    } else {
        let r = remove_all(s, base);
        let t = if r.len() > 0 && r[0] == '/' {
            r.drop_first()
        } else {
            r
        };
        let parts = split_segments(t);
        if parts.len() > 1 {
            parts[parts.len() - 2] + seq!['/'] + parts[parts.len() - 1]
        } else {
            t
        }
    }
}

/// The label of the folder `s` relative to `base_dir`, as `folder_label`
/// describes.
pub fn process_folder(s: &str, base_dir: &str) -> (r: String)
    ensures
        r@ == folder_label(s@, base_dir@),
{
    let whole = s.to_owned();
    let base = base_dir.to_owned();
    if whole == base {
        let parts = split_path(s);
        let last = parts.len() - 1;
        assert(views(parts@)[last as int] == parts@[last as int]@);
        return parts[last].clone();
    }
    let r = remove_occurrences(s, base_dir);
    let n = r.as_str().unicode_len();
    let t = if n > 0 && r.as_str().get_char(0) == '/' {
        assert(r@.subrange(1, n as int) == r@.drop_first());
        r.as_str().substring_char(1, n).to_owned()
    } else {
        r
    };
    let parts = split_path(t.as_str());
    let k = parts.len();
    if k > 1 {
        assert(views(parts@)[k - 2] == parts@[k - 2]@);
        assert(views(parts@)[k - 1] == parts@[k - 1]@);
        let mut out = parts[k - 2].clone();
        let sep = "/";
        proof {
            reveal_strlit("/");
        }
        out.append(sep);
        out.append(parts[k - 1].as_str());
        out
    } else {
        t
    }
}

} // verus!
