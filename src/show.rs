//! Printing expressions back in the source syntax.
use vstd::prelude::*;
use vstd::string::StringExecFns;

use crate::ast::{Atom, Exp, Graph, Term};
use crate::semantics::ap;

verus! {

/// The character of a decimal digit.
pub open spec fn digit(d: nat) -> char {
    if d == 0 {
        '0'
    } else if d == 1 {
        '1'
    } else if d == 2 {
        '2'
    } else if d == 3 {
        '3'
    } else if d == 4 {
        '4'
    } else if d == 5 {
        '5'
    } else if d == 6 {
        '6'
    } else if d == 7 {
        '7'
    } else if d == 8 {
        '8'
    } else {
        '9'
    }
}

/// `n` in decimal, without leading zeros.
pub open spec fn dec_text(n: nat) -> Seq<char>
    decreases n,
{
    if n < 10 {
        seq![digit(n)]
    } else {
        dec_text(n / 10).push(digit(n % 10))
    }
}

/// `v` in decimal, with `-` before a negative number.
pub open spec fn int_text(v: i64) -> Seq<char> {
    if v < 0 {
        seq!['-'] + dec_text((-v) as nat)
    } else {
        dec_text(v as nat)
    }
}

/// The source word of an atom.
pub open spec fn atom_text(a: Atom) -> Seq<char> {
    match a {
        Atom::Nil => seq!['n', 'i', 'l'],
        Atom::Int(v) => int_text(v),
        Atom::Var(v) => seq![':'] + dec_text(v as nat),
        Atom::Bool(b) => if b {
            seq!['t']
        } else {
            seq!['f']
        },
        Atom::Neg => seq!['n', 'e', 'g'],
        Atom::Inc => seq!['i', 'n', 'c'],
        Atom::Dec => seq!['d', 'e', 'c'],
        Atom::Add => seq!['a', 'd', 'd'],
        Atom::Mul => seq!['m', 'u', 'l'],
        Atom::Div => seq!['d', 'i', 'v'],
        Atom::Eq => seq!['e', 'q'],
        Atom::Lt => seq!['l', 't'],
        Atom::S => seq!['s'],
        Atom::I => seq!['i'],
        Atom::B => seq!['b'],
        Atom::C => seq!['c'],
        Atom::Cons => seq!['c', 'o', 'n', 's'],
        Atom::Car => seq!['c', 'a', 'r'],
        Atom::Cdr => seq!['c', 'd', 'r'],
        Atom::IsNil => seq!['i', 's', 'n', 'i', 'l'],
        Atom::Galaxy => seq!['g', 'a', 'l', 'a', 'x', 'y'],
    }
}

/// A term in prefix form: `ap f x` for an application.
pub open spec fn term_text(t: Term) -> Seq<char>
    decreases t,
{
    match t {
        Term::Leaf(a) => atom_text(a),
        Term::Ap(f, x) => seq!['a', 'p', ' '] + term_text(*f) + seq![' '] + term_text(*x),
    }
}

/// Appends the literal `s`.
fn push_lit(out: &mut String, s: &'static str)
    ensures
        final(out)@ == old(out)@ + s@,
{
    out.append(s);
}

/// Appends digit `d`.
fn push_digit(out: &mut String, d: u64)
    requires
        d < 10,
    ensures
        final(out)@ == old(out)@.push(digit(d as nat)),
{
    let ghost o0 = out@;
    let s = if d == 0 {
        proof {
            reveal_strlit("0");
        }
        "0"
    } else if d == 1 {
        proof {
            reveal_strlit("1");
        }
        "1"
    } else if d == 2 {
        proof {
            reveal_strlit("2");
        }
        "2"
    } else if d == 3 {
        proof {
            reveal_strlit("3");
        }
        "3"
    } else if d == 4 {
        proof {
            reveal_strlit("4");
        }
        "4"
    } else if d == 5 {
        proof {
            reveal_strlit("5");
        }
        "5"
    } else if d == 6 {
        proof {
            reveal_strlit("6");
        }
        "6"
    } else if d == 7 {
        proof {
            reveal_strlit("7");
        }
        "7"
    } else if d == 8 {
        proof {
            reveal_strlit("8");
        }
        "8"
    } else {
        proof {
            reveal_strlit("9");
        }
        "9"
    };
    push_lit(out, s);
    assert(out@ =~= o0.push(digit(d as nat)));
}

/// Appends `n` in decimal.
fn push_decimal(out: &mut String, n: u64)
    ensures
        final(out)@ == old(out)@ + dec_text(n as nat),
    decreases n,
{
    let ghost o0 = out@;
    if n >= 10 {
        push_decimal(out, n / 10);
    }
    push_digit(out, n % 10);
    assert(out@ =~= o0 + dec_text(n as nat));
}

impl Atom {
    /// The source word of this atom.
    pub fn show(&self) -> (r: String)
        ensures
            r@ == atom_text(*self),
    {
        let mut out = String::new();
        let ghost o0 = out@;
        match *self {
            Atom::Int(v) => {
                if v < 0 {
                    proof {
                        reveal_strlit("-");
                    }
                    push_lit(&mut out, "-");
                    push_decimal(&mut out, (-(v as i128)) as u64);
                } else {
                    push_decimal(&mut out, v as u64);
                }
            },
            Atom::Var(v) => {
                proof {
                    reveal_strlit(":");
                }
                push_lit(&mut out, ":");
                push_decimal(&mut out, v);
            },
            _ => {
                let word = word_of(*self);
                push_lit(&mut out, word);
            },
        }
        assert(out@ =~= atom_text(*self));
        out
    }
}

/// The word of an atom that is no number.
fn word_of(a: Atom) -> (r: &'static str)
    requires
        !(a is Int) && !(a is Var),
    ensures
        r@ == atom_text(a),
{
    match a {
        Atom::Nil => {
            proof {
                reveal_strlit("nil");
            }
            "nil"
        },
        Atom::Bool(b) => if b {
            proof {
                reveal_strlit("t");
            }
            "t"
        } else {
            proof {
                reveal_strlit("f");
            }
            "f"
        },
        Atom::Neg => {
            proof {
                reveal_strlit("neg");
            }
            "neg"
        },
        Atom::Inc => {
            proof {
                reveal_strlit("inc");
            }
            "inc"
        },
        Atom::Dec => {
            proof {
                reveal_strlit("dec");
            }
            "dec"
        },
        Atom::Add => {
            proof {
                reveal_strlit("add");
            }
            "add"
        },
        Atom::Mul => {
            proof {
                reveal_strlit("mul");
            }
            "mul"
        },
        Atom::Div => {
            proof {
                reveal_strlit("div");
            }
            "div"
        },
        Atom::Eq => {
            proof {
                reveal_strlit("eq");
            }
            "eq"
        },
        Atom::Lt => {
            proof {
                reveal_strlit("lt");
            }
            "lt"
        },
        Atom::S => {
            proof {
                reveal_strlit("s");
            }
            "s"
        },
        Atom::I => {
            proof {
                reveal_strlit("i");
            }
            "i"
        },
        Atom::B => {
            proof {
                reveal_strlit("b");
            }
            "b"
        },
        Atom::C => {
            proof {
                reveal_strlit("c");
            }
            "c"
        },
        Atom::Cons => {
            proof {
                reveal_strlit("cons");
            }
            "cons"
        },
        Atom::Car => {
            proof {
                reveal_strlit("car");
            }
            "car"
        },
        Atom::Cdr => {
            proof {
                reveal_strlit("cdr");
            }
            "cdr"
        },
        Atom::IsNil => {
            proof {
                reveal_strlit("isnil");
            }
            "isnil"
        },
        _ => {
            proof {
                reveal_strlit("galaxy");
            }
            "galaxy"
        },
    }
}

/// Appends the text of node `i`.
fn show_into(g: &Graph, i: usize, out: &mut String)
    requires
        g.wf(),
        i < g.len(),
    ensures
        final(out)@ == old(out)@ + term_text(g.term(i as int)),
    decreases i,
{
    let ghost o0 = out@;
    match g.node(i) {
        Exp::Atom(a) => {
            let s = a.show();
            push_lit_owned(out, &s);
        },
        Exp::App(f, x) => {
            assert(g.term(i as int) == ap(g.term(f as int), g.term(x as int)));
            proof {
                reveal_strlit("ap ");
                reveal_strlit(" ");
            }
            push_lit(out, "ap ");
            show_into(g, f, out);
            push_lit(out, " ");
            show_into(g, x, out);
            assert(out@ =~= o0 + term_text(g.term(i as int)));
        },
    }
}

/// Appends the string `s`.
fn push_lit_owned(out: &mut String, s: &String)
    ensures
        final(out)@ == old(out)@ + s@,
{
    out.append(s.as_str());
}

impl Graph {
    /// The text of node `i` in source syntax; sharing is written out.
    pub fn show(&self, i: usize) -> (r: String)
        requires
            self.wf(),
            i < self.len(),
        ensures
            r@ == term_text(self.term(i as int)),
    {
        let mut out = String::new();
        show_into(self, i, &mut out);
        assert(out@ =~= term_text(self.term(i as int)));
        out
    }
}

} // verus!
