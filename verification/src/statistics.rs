use vstd::prelude::*;

verus! {

/// Decimal digits of a number, most significant first.
pub open spec fn spec_digits(n: nat) -> Seq<char>
    decreases n,
{
    if n < 10 {
        seq![spec_digit_char(n)]
    } else {
        spec_digits(n / 10) + seq![spec_digit_char(n % 10)]
    }
}

pub open spec fn spec_digit_char(d: nat) -> char {
    if d == 0 {
        '0'
    } else if d == 1 {
        '1'
    } else if d == 2 {
        '2'
    } else if d == 3 {
        '3'
    } else if d == 4 {
        '4'
    } else if d == 5 {
        '5'
    } else if d == 6 {
        '6'
    } else if d == 7 {
        '7'
    } else if d == 8 {
        '8'
    } else {
        '9'
    }
}

/// One digit as a string.
fn digit_str(d: usize) -> (r: String)
    requires
        d < 10,
    ensures
        r@ == seq![spec_digit_char(d as nat)],
{
    proof {
        reveal_strlit("0");
        reveal_strlit("1");
        reveal_strlit("2");
        reveal_strlit("3");
        reveal_strlit("4");
        reveal_strlit("5");
        reveal_strlit("6");
        reveal_strlit("7");
        reveal_strlit("8");
        reveal_strlit("9");
    }
    let s = if d == 0 {
        "0"
    } else if d == 1 {
        "1"
    } else if d == 2 {
        "2"
    } else if d == 3 {
        "3"
    } else if d == 4 {
        "4"
    } else if d == 5 {
        "5"
    } else if d == 6 {
        "6"
    } else if d == 7 {
        "7"
    } else if d == 8 {
        "8"
    } else {
        "9"
    };
    proof {
        assert(s@ =~= seq![spec_digit_char(d as nat)]);
    }
    String::from_str(s)
}

/// Decimal rendering of a number, proved equal to its digit sequence.
pub fn usize_to_string(n: usize) -> (r: String)
    ensures
        r@ == spec_digits(n as nat),
    decreases n,
{
    if n < 10 {
        digit_str(n)
    } else {
        proof {
            vstd::arithmetic::div_mod::lemma_div_nonincreasing(n as int, 10);
            vstd::arithmetic::div_mod::lemma_div_pos_is_pos(n as int, 10);
            vstd::arithmetic::div_mod::lemma_mod_bound(n as int, 10);
        }
        let hi = usize_to_string(n / 10);
        let lo = digit_str(n % 10);
        let r = hi.concat(lo.as_str());
        proof {
            assert(r@ == spec_digits((n / 10) as nat) + seq![spec_digit_char((n % 10) as nat)]);
        }
        r
    }
}

/// A sequence of `n` spaces.
pub open spec fn spec_pad(n: nat) -> Seq<char> {
    Seq::new(n, |i: int| ' ')
}

/// One padded table cell: ` value<pad> |`.
pub open spec fn spec_cell(v: Seq<char>, w: nat) -> Seq<char> {
    seq![' '] + v + spec_pad((w - v.len()) as nat) + seq![' ', '|']
}

fn pad_string(n: usize) -> (r: String)
    ensures
        r@ == spec_pad(n as nat),
{
    proof {
        reveal_strlit(" ");
        reveal_strlit("");
    }
    let mut s = String::from_str("");
    let mut i: usize = 0;
    proof {
        assert(s@ =~= spec_pad(0));
    }
    while i < n
        invariant
            i <= n,
            s@ == spec_pad(i as nat),
        decreases n - i,
    {
        proof {
            reveal_strlit(" ");
        }
        s.append(" ");
        proof {
            assert(s@ =~= spec_pad((i + 1) as nat));
        }
        i = i + 1;
    }
    s
}

/// A two-row table of labelled values, built as a pair of aligned strings.
pub struct Statistics {
    pub header: String,
    pub values: String,
}

impl Statistics {
    pub fn new() -> (r: Statistics)
        ensures
            r.header@ == seq!['|'],
            r.values@ == seq!['|'],
    {
        proof {
            reveal_strlit("|");
            assert("|"@ =~= seq!['|']);
        }
        Statistics { header: String::from_str("|"), values: String::from_str("|") }
    }

    /// Appends one column: the key into the header row and the value into
    /// the value row, both padded to the wider of the two.
    pub fn add_str(&mut self, key: &str, value: &str)
        ensures
            final (self).header@ == old(self).header@ + spec_cell(
                key@,
                vstd::math::max(key@.len() as int, value@.len() as int) as nat,
            ),
            final (self).values@ == old(self).values@ + spec_cell(
                value@,
                vstd::math::max(key@.len() as int, value@.len() as int) as nat,
            ),
    {
        let key_len = key.unicode_len();
        let value_len = value.unicode_len();
        let max_len = if key_len >= value_len {
            key_len
        } else {
            value_len
        };
        proof {
            reveal_strlit(" ");
            reveal_strlit(" |");
            assert(" |"@ =~= seq![' ', '|']);
            assert(" "@ =~= seq![' ']);
        }
        let kpad = pad_string(max_len - key_len);
        let vpad = pad_string(max_len - value_len);
        self.header.append(" ");
        self.header.append(key);
        self.header.append(kpad.as_str());
        self.header.append(" |");
        self.values.append(" ");
        self.values.append(value);
        self.values.append(vpad.as_str());
        self.values.append(" |");
        proof {
            let w = vstd::math::max(key@.len() as int, value@.len() as int) as nat;
            assert(self.header@ =~= old(self).header@ + spec_cell(key@, w));
            assert(self.values@ =~= old(self).values@ + spec_cell(value@, w));
        }
    }

    /// Appends one column with a numeric value rendered in decimal.
    pub fn add(&mut self, key: &str, value: usize)
        ensures
            final (self).header@ == old(self).header@ + spec_cell(
                key@,
                vstd::math::max(key@.len() as int, spec_digits(value as nat).len() as int)
                    as nat,
            ),
            final (self).values@ == old(self).values@ + spec_cell(
                spec_digits(value as nat),
                vstd::math::max(key@.len() as int, spec_digits(value as nat).len() as int)
                    as nat,
            ),
    {
        let v = usize_to_string(value);
        self.add_str(key, v.as_str());
    }
}

} // verus!
