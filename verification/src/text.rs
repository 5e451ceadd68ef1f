//! Vertices and simplices as text.
use crate::simplex::Vertex;
use vstd::prelude::*;
use vstd::string::StringExecFns;

verus! {

/// The character of a decimal digit.
pub open spec fn digit_char(d: nat) -> char {
    if d == 0 {
        '0'
    } else if d == 1 {
        '1'
    } else if d == 2 {
        '2'
    } else if d == 3 {
        '3'
    } else if d == 4 {
        '4'
    } else if d == 5 {
        '5'
    } else if d == 6 {
        '6'
    } else if d == 7 {
        '7'
    } else if d == 8 {
        '8'
    } else {
        '9'
    }
}

/// A number written in decimal digits.
pub open spec fn decimal(n: nat) -> Seq<char>
    decreases n,
{
    if n < 10 {
        seq![digit_char(n)]
    } else {
        decimal(n / 10).push(digit_char(n % 10))
    }
}

/// A vertex written as `(id, weight)`.
pub open spec fn vertex_text(v: Vertex) -> Seq<char> {
    seq!['('] + decimal(v.0 as nat) + seq![',', ' '] + decimal(v.1 as nat) + seq![')']
}

/// The first `n` vertices of `s`, each followed by a comma and a space.
pub open spec fn vertices_text(s: Seq<Vertex>, n: nat) -> Seq<char>
    decreases n,
{
    if n == 0 {
        Seq::empty()
    } else {
        vertices_text(s, (n - 1) as nat) + vertex_text(s[n - 1]) + seq![',', ' ']
    }
}

/// A simplex written as `Simplex(` and its vertices, each followed by a
/// comma and a space, then `weight: `, the weight and `)`.
pub open spec fn simplex_text(s: Seq<Vertex>, w: usize) -> Seq<char> {
    seq!['S', 'i', 'm', 'p', 'l', 'e', 'x', '('] + vertices_text(s, s.len()) + seq![
        'w',
        'e',
        'i',
        'g',
        'h',
        't',
        ':',
        ' ',
    ] + decimal(w as nat) + seq![')']
}

fn digit_str(d: usize) -> (r: &'static str)
    requires
        d < 10,
    ensures
        r@ == seq![digit_char(d as nat)],
{
    proof {
        reveal_strlit("0");
        reveal_strlit("1");
        reveal_strlit("2");
        reveal_strlit("3");
        reveal_strlit("4");
        reveal_strlit("5");
        reveal_strlit("6");
        reveal_strlit("7");
        reveal_strlit("8");
        reveal_strlit("9");
    }
    let r = if d == 0 {
        "0"
    } else if d == 1 {
        "1"
    } else if d == 2 {
        "2"
    } else if d == 3 {
        "3"
    } else if d == 4 {
        "4"
    } else if d == 5 {
        "5"
    } else if d == 6 {
        "6"
    } else if d == 7 {
        "7"
    } else if d == 8 {
        "8"
    } else {
        "9"
    };
    assert(r@ =~= seq![digit_char(d as nat)]);
    r
}

/// Append the decimal digits of `n` to `out`.
pub fn push_decimal(out: &mut String, n: usize)
    ensures
        final(out)@ == old(out)@ + decimal(n as nat),
    decreases n,
{
    if n >= 10 {
        push_decimal(out, n / 10);
    }
    out.append(digit_str(n % 10));
    proof {
        let before = old(out)@;
        if n >= 10 {
            assert(before + decimal((n / 10) as nat) + seq![digit_char((n % 10) as nat)] =~= before
                + decimal(n as nat));
        }
    }
}

/// Append the text of a vertex to `out`.
pub fn push_vertex(out: &mut String, v: &Vertex)
    ensures
        final(out)@ == old(out)@ + vertex_text(*v),
{
    proof {
        reveal_strlit("(");
        reveal_strlit(", ");
        reveal_strlit(")");
    }
    out.append("(");
    push_decimal(out, v.0);
    out.append(", ");
    push_decimal(out, v.1);
    out.append(")");
    proof {
        let before = old(out)@;
        assert(out@ =~= before + vertex_text(*v));
    }
}

} // verus!
