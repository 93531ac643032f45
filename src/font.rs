//! Font descriptors: a family name and a pixel size.
use vstd::prelude::*;

verus! {

/// The character of a decimal digit below ten.
pub open spec fn digit_char(d: nat) -> char {
    if d == 0 {
        '0'
    } else if d == 1 {
        '1'
    } else if d == 2 {
        '2'
    } else if d == 3 {
        '3'
    } else if d == 4 {
        '4'
    } else if d == 5 {
        '5'
    } else if d == 6 {
        '6'
    } else if d == 7 {
        '7'
    } else if d == 8 {
        '8'
    } else {
        '9'
    }
}

/// The decimal digits of `n`, without leading zeros.
pub open spec fn decimal(n: nat) -> Seq<char>
    decreases n,
{
    if n < 10 {
        seq![digit_char(n)]
    } else {
        decimal(n / 10).push(digit_char(n % 10))
    }
}

/// A family name and a pixel size; two fonts are the same font when both
/// agree.
#[derive(Debug, Hash)]
pub struct Font {
    name: String,
    size: u8,
}

impl View for Font {
    type V = (Seq<char>, u8);

    closed spec fn view(&self) -> (Seq<char>, u8) {
        (self.name@, self.size)
    }
}

fn digit_str(d: u8) -> (r: &'static str)
    requires
        d < 10,
    ensures
        r@ == seq![digit_char(d as nat)],
{
    if d == 0 {
        proof { reveal_strlit("0"); }
        "0"
    } else if d == 1 {
        proof { reveal_strlit("1"); }
        "1"
    } else if d == 2 {
        proof { reveal_strlit("2"); }
        "2"
    } else if d == 3 {
        proof { reveal_strlit("3"); }
        "3"
    } else if d == 4 {
        proof { reveal_strlit("4"); }
        "4"
    } else if d == 5 {
        proof { reveal_strlit("5"); }
        "5"
    } else if d == 6 {
        proof { reveal_strlit("6"); }
        "6"
    } else if d == 7 {
        proof { reveal_strlit("7"); }
        "7"
    } else if d == 8 {
        proof { reveal_strlit("8"); }
        "8"
    } else {
        proof { reveal_strlit("9"); }
        "9"
    }
}

impl PartialEq for Font {
    fn eq(&self, other: &Font) -> (r: bool) {
        self.size == other.size && self.name == other.name
    }
}

impl vstd::std_specs::cmp::PartialEqSpecImpl for Font {
    open spec fn obeys_eq_spec() -> bool {
        true
    }

    open spec fn eq_spec(&self, other: &Font) -> bool {
        self@ == other@
    }
}

impl Eq for Font {
}

impl Clone for Font {
    fn clone(&self) -> (r: Font)
        ensures
            r@ == self@,
    {
        Font { name: self.name.clone(), size: self.size }
    }
}

impl Font {
    /// The CSS font shorthand, `"<size>px <name>"`.
    pub fn as_canvas_string(&self) -> (r: String)
        ensures
            r@ == decimal(self@.1 as nat) + "px "@ + self@.0,
    {
        let n = self.size;
        let mut s = String::new();
        if n >= 100 {
            s.append(digit_str(n / 100));
        }
        if n >= 10 {
            s.append(digit_str((n / 10) % 10));
        }
        s.append(digit_str(n % 10));
        proof {
            let k = n as nat;
            if k >= 100 {
                assert(decimal(k / 100) == seq![digit_char(k / 100)]);
                assert(decimal(k / 10) == decimal(k / 100).push(digit_char((k / 10) % 10)));
            } else if k >= 10 {
                assert(decimal(k / 10) == seq![digit_char(k / 10)]);
            }
            assert(s@ == decimal(k));
        }
        s.append("px ");
        s.append(self.name.as_str());
        s
    }

    pub fn new(name: &str, size: u8) -> (r: Font)
        ensures
            r@ == (name@, size),
    {
        Font { name: name.to_owned(), size }
    }
}

} // verus!
