//! ANSI colour and weight escapes around text.
use vstd::prelude::*;

verus! {

pub open spec fn esc(code: Seq<char>) -> Seq<char> {
    seq!['\x1B', '['] + code + seq!['m']
}

/// `s` in green: `ESC[32m` before, `ESC[39m` after.
pub open spec fn green_text(s: Seq<char>) -> Seq<char> {
    esc(seq!['3', '2']) + s + esc(seq!['3', '9'])
}

/// `s` in yellow: `ESC[33m` before, `ESC[39m` after.
pub open spec fn yellow_text(s: Seq<char>) -> Seq<char> {
    esc(seq!['3', '3']) + s + esc(seq!['3', '9'])
}

/// `s` in red: `ESC[31m` before, `ESC[39m` after.
pub open spec fn red_text(s: Seq<char>) -> Seq<char> {
    esc(seq!['3', '1']) + s + esc(seq!['3', '9'])
}

/// `s` in bold: `ESC[1m` before, `ESC[22m` after.
pub open spec fn bold_text(s: Seq<char>) -> Seq<char> {
    esc(seq!['1']) + s + esc(seq!['2', '2'])
}

/// `s` faint: `ESC[2m` before, `ESC[22m` after.
pub open spec fn faint_text(s: Seq<char>) -> Seq<char> {
    esc(seq!['2']) + s + esc(seq!['2', '2'])
}

fn wrap(prefix: &str, s: &str, suffix: &str) -> (r: String)
    ensures
        r@ == prefix@ + s@ + suffix@,
{
    let mut r = String::new();
    r.push_str(prefix);
    r.push_str(s);
    r.push_str(suffix);
    assert(r@ =~= prefix@ + s@ + suffix@);
    r
}

pub fn paint_green(s: &str) -> (r: String)
    ensures
        r@ == green_text(s@),
{
    proof {
        reveal_strlit("\x1B[32m");
        reveal_strlit("\x1B[39m");
    }
    let r = wrap("\x1B[32m", s, "\x1B[39m");
    assert(r@ =~= green_text(s@));
    r
}

pub fn paint_yellow(s: &str) -> (r: String)
    ensures
        r@ == yellow_text(s@),
{
    proof {
        reveal_strlit("\x1B[33m");
        reveal_strlit("\x1B[39m");
    }
    let r = wrap("\x1B[33m", s, "\x1B[39m");
    assert(r@ =~= yellow_text(s@));
    r
}

pub fn paint_red(s: &str) -> (r: String)
    ensures
        r@ == red_text(s@),
{
    proof {
        reveal_strlit("\x1B[31m");
        reveal_strlit("\x1B[39m");
    }
    let r = wrap("\x1B[31m", s, "\x1B[39m");
    assert(r@ =~= red_text(s@));
    r
}

pub fn paint_bold(s: &str) -> (r: String)
    ensures
        r@ == bold_text(s@),
{
    proof {
        reveal_strlit("\x1B[1m");
        reveal_strlit("\x1B[22m");
    }
    let r = wrap("\x1B[1m", s, "\x1B[22m");
    assert(r@ =~= bold_text(s@));
    r
}

pub fn paint_faint(s: &str) -> (r: String)
    ensures
        r@ == faint_text(s@),
{
    proof {
        reveal_strlit("\x1B[2m");
        reveal_strlit("\x1B[22m");
    }
    let r = wrap("\x1B[2m", s, "\x1B[22m");
    assert(r@ =~= faint_text(s@));
    r
}

} // verus!
