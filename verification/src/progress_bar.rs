use vstd::prelude::*;

use crate::statistics::{spec_digits, spec_pad, usize_to_string};

verus! {

/// Width of the rendered bar in characters.
pub const BAR_SIZE: usize = 20;

/// Render progress as a counter plus a textual bar; the embedding program
/// prints the returned line (carriage-return redrawing is terminal
/// business, not the library's).
pub struct ProgressBar {
    pub pos: usize,
    pub max: usize,
}

/// A run of `n` hash marks.
pub open spec fn spec_hashes(n: nat) -> Seq<char> {
    Seq::new(n, |i: int| '#')
}

/// The rendered line for `cur` of `max` steps done:
/// `[####                ] | 20% | cur/max`.
pub open spec fn spec_progress_line(cur: nat, max: nat) -> Seq<char> {
    let bar = cur * 20 / max;
    seq!['['] + spec_hashes(bar) + spec_pad((20 - bar) as nat) + seq![']', ' ', '|', ' ']
        + spec_digits(cur * 100 / max) + seq!['%', ' ', '|', ' '] + spec_digits(cur) + seq![
        '/',
    ] + spec_digits(max)
}

impl ProgressBar {
    pub fn new(max: usize) -> (r: ProgressBar)
        requires
            max >= 1,
        ensures
            r.pos == 0 && r.max == max,
    {
        ProgressBar { pos: 0, max }
    }

    /// Advances one step and renders the state before the step, exactly as
    /// `spec_progress_line` lays it out.
    pub fn update(&mut self) -> (line: String)
        requires
            old(self).max >= 1,
            old(self).max <= 0x100_0000,
            old(self).pos < old(self).max,
        ensures
            final (self).pos == old(self).pos + 1,
            final (self).max == old(self).max,
            line@ == spec_progress_line(old(self).pos as nat, old(self).max as nat),
    {
        let cur = self.pos;
        let max = self.max;
        proof {
            vstd::arithmetic::div_mod::lemma_div_pos_is_pos(cur as int * 20, max as int);
            vstd::arithmetic::div_mod::lemma_div_pos_is_pos(cur as int * 100, max as int);
            crate::math::lemma_mul_le(cur as int, 20, max as int - 1, 20);
            crate::math::lemma_mul_le(cur as int, 100, max as int - 1, 100);
            assert((max as int - 1) * 20 < max as int * 20) by (nonlinear_arith)
                requires
                    max >= 1,
            ;
            lemma_scaled_ratio_below(cur as nat, max as nat, 20);
            lemma_scaled_ratio_below(cur as nat, max as nat, 100);
        }
        let bar = cur * 20 / max;
        assert(bar < 20);
        proof {
            reveal_strlit("[");
            reveal_strlit("] | ");
            reveal_strlit("% | ");
            reveal_strlit("/");
            assert("["@ =~= seq!['[']);
            assert("] | "@ =~= seq![']', ' ', '|', ' ']);
            assert("% | "@ =~= seq!['%', ' ', '|', ' ']);
            assert("/"@ =~= seq!['/']);
        }
        let mut line = String::from_str("[");
        let hashes = hash_string(bar);
        let spaces = space_string(20 - bar);
        line.append(hashes.as_str());
        line.append(spaces.as_str());
        line.append("] | ");
        let pct = usize_to_string(cur * 100 / max);
        line.append(pct.as_str());
        line.append("% | ");
        let cur_s = usize_to_string(cur);
        line.append(cur_s.as_str());
        line.append("/");
        let max_s = usize_to_string(max);
        line.append(max_s.as_str());
        self.pos = cur + 1;
        proof {
            assert(line@ =~= spec_progress_line(cur as nat, max as nat));
        }
        line
    }
}

/// For `cur < max`, the scaled ratio stays strictly below the scale.
proof fn lemma_scaled_ratio_below(cur: nat, max: nat, scale: nat)
    requires
        max >= 1,
        scale >= 1,
        cur < max,
    ensures
        cur * scale / max < scale,
{
    assert(cur * scale <= max * scale - scale) by (nonlinear_arith)
        requires
            cur + 1 <= max,
            1 <= scale,
    ;
    vstd::arithmetic::div_mod::lemma_div_is_ordered(
        cur as int * scale as int,
        max as int * scale as int - scale as int,
        max as int,
    );
    if (max as int * scale as int - scale as int) / (max as int) >= scale {
        vstd::arithmetic::div_mod::lemma_fundamental_div_mod(
            max as int * scale as int - scale as int,
            max as int,
        );
        vstd::arithmetic::div_mod::lemma_mod_bound(
            max as int * scale as int - scale as int,
            max as int,
        );
        assert(false) by (nonlinear_arith)
            requires
                max as int * scale as int - scale as int == max as int * ((max as int * scale
                    as int - scale as int) / (max as int)) + (max as int * scale as int
                    - scale as int) % (max as int),
                (max as int * scale as int - scale as int) / (max as int) >= scale as int,
                0 <= (max as int * scale as int - scale as int) % (max as int) < max as int,
                max >= 1,
                scale >= 1,
        ;
    }
}

fn hash_string(n: usize) -> (r: String)
    ensures
        r@ == spec_hashes(n as nat),
{
    proof {
        reveal_strlit("#");
        reveal_strlit("");
        assert("#"@ =~= seq!['#']);
    }
    let mut s = String::from_str("");
    let mut i: usize = 0;
    proof {
        assert(s@ =~= spec_hashes(0));
    }
    while i < n
        invariant
            i <= n,
            s@ == spec_hashes(i as nat),
        decreases n - i,
    {
        proof {
            reveal_strlit("#");
        }
        s.append("#");
        proof {
            assert(s@ =~= spec_hashes((i + 1) as nat));
        }
        i = i + 1;
    }
    s
}

fn space_string(n: usize) -> (r: String)
    ensures
        r@ == spec_pad(n as nat),
{
    proof {
        reveal_strlit(" ");
        reveal_strlit("");
        assert(""@ =~= spec_pad(0));
    }
    let mut s = String::from_str("");
    let mut i: usize = 0;
    while i < n
        invariant
            i <= n,
            s@ == spec_pad(i as nat),
        decreases n - i,
    {
        proof {
            reveal_strlit(" ");
        }
        s.append(" ");
        proof {
            assert(s@ =~= spec_pad((i + 1) as nat));
        }
        i = i + 1;
    }
    s
}

} // verus!
