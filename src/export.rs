//! The edge list of a similarity graph as delimited text lines.
use crate::graph::{Edge, SimilarityGraph};
use vstd::prelude::*;

verus! {

/// The decimal digit `d`, `0 <= d < 10`.
pub open spec fn digit_char(d: int) -> char {
    seq!['0', '1', '2', '3', '4', '5', '6', '7', '8', '9'][d]
}

/// `n` in decimal, without leading zeros.
pub open spec fn decimal(n: nat) -> Seq<char>
    decreases n,
{
    if n < 10 {
        seq![digit_char(n as int)]
    } else {
        decimal(n / 10).push(digit_char((n % 10) as int))
    }
}

/// The last `width` decimal digits of `n`, with leading zeros.
pub open spec fn padded(n: nat, width: nat) -> Seq<char>
    decreases width,
{
    if width == 0 {
        Seq::empty()
    } else {
        padded(n / 10, (width - 1) as nat).push(digit_char((n % 10) as int))
    }
}

/// A weight given in millionths, written as a decimal number with exactly six
/// fractional digits (`-500000` is `-0.500000`).
pub open spec fn weight_text(w: int) -> Seq<char> {
    let a: nat = if w < 0 { (-w) as nat } else { w as nat };
    let sign: Seq<char> = if w < 0 { seq!['-'] } else { Seq::empty() };
    sign + decimal(a / 1_000_000) + seq!['.'] + padded(a % 1_000_000, 6)
}

/// The first line of the edge list.
pub open spec fn header_text() -> Seq<char> {
    "Source,Target,Weight"@
}

/// The line for edge `e`: both endpoint labels and the weight, separated by a
/// comma and a space.
pub open spec fn edge_line(labels: Seq<Seq<char>>, e: Edge) -> Seq<char> {
    labels[e.source as int] + seq![',', ' '] + labels[e.target as int] + seq![',', ' '] + weight_text(
        e.weight as int,
    )
}

fn push_digit(s: &mut String, d: u64)
    requires
        d < 10,
    ensures
        final(s)@ == old(s)@.push(digit_char(d as int)),
{
    proof {
        reveal_strlit("0");
        reveal_strlit("1");
        reveal_strlit("2");
        reveal_strlit("3");
        reveal_strlit("4");
        reveal_strlit("5");
        reveal_strlit("6");
        reveal_strlit("7");
        reveal_strlit("8");
        reveal_strlit("9");
    }
    let text = if d == 0 {
        "0"
    } else if d == 1 {
        "1"
    } else if d == 2 {
        "2"
    } else if d == 3 {
        "3"
    } else if d == 4 {
        "4"
    } else if d == 5 {
        "5"
    } else if d == 6 {
        "6"
    } else if d == 7 {
        "7"
    } else if d == 8 {
        "8"
    } else {
        "9"
    };
    assert(text@ == seq![digit_char(d as int)]);
    s.append(text);
}

fn push_decimal(s: &mut String, n: u64)
    ensures
        final(s)@ == old(s)@ + decimal(n as nat),
    decreases n,
{
    if n >= 10 {
        push_decimal(s, n / 10);
    }
    push_digit(s, n % 10);
    proof {
        if n >= 10 {
            assert(old(s)@ + decimal(n as nat) =~= old(s)@ + decimal((n / 10) as nat) + seq![digit_char((n % 10) as int)]);
        } else {
            assert(old(s)@ + decimal(n as nat) =~= old(s)@.push(digit_char((n % 10) as int)));
        }
    }
}

fn push_padded(s: &mut String, n: u64, width: u64)
    ensures
        final(s)@ == old(s)@ + padded(n as nat, width as nat),
    decreases width,
{
    if width > 0 {
        push_padded(s, n / 10, width - 1);
        push_digit(s, n % 10);
        assert(old(s)@ + padded(n as nat, width as nat) =~= old(s)@ + padded((n / 10) as nat, (width - 1) as nat)
            + seq![digit_char((n % 10) as int)]);
    } else {
        assert(old(s)@ + padded(n as nat, width as nat) =~= old(s)@);
    }
}

/// Writes a weight given in millionths with six fractional digits.
pub fn weight_to_text(w: i64) -> (r: String)
    ensures
        r@ == weight_text(w as int),
{
    let mut s = String::new();
    let a: u64 = if w < 0 {
        s.append("-");
        (0i128 - w as i128) as u64
    } else {
        w as u64
    };
    proof {
        reveal_strlit("-");
    }
    push_decimal(&mut s, a / 1_000_000);
    s.append(".");
    proof {
        reveal_strlit(".");
    }
    push_padded(&mut s, a % 1_000_000, 6);
    let ghost sign: Seq<char> = if w < 0 { seq!['-'] } else { Seq::empty() };
    assert(s@ =~= sign + decimal((a / 1_000_000) as nat) + seq!['.'] + padded((a % 1_000_000) as nat, 6));
    s
}

/// The edge list of `g`: a header line, then one line per edge in stored
/// order. Lines carry no line terminator.
pub fn edge_list_lines(g: &SimilarityGraph) -> (r: Vec<String>)
    requires
        g.well_formed(),
    ensures
        r@.len() == g.edges_view().len() + 1,
        r@[0]@ == header_text(),
        forall|k: int| 0 <= k < g.edges_view().len() ==> #[trigger] r@[k + 1]@ == edge_line(g.labels_view(), g.edges_view()[k]),
{
    let mut r: Vec<String> = Vec::new();
    r.push(String::from_str("Source,Target,Weight"));
    let mut k: usize = 0;
    while k < g.edge_count()
        invariant
            g.well_formed(),
            0 <= k <= g.edges_view().len(),
            r@.len() == k + 1,
            r@[0]@ == header_text(),
            forall|t: int| 0 <= t < k ==> #[trigger] r@[t + 1]@ == edge_line(g.labels_view(), g.edges_view()[t]),
        decreases g.edges_view().len() - k,
    {
        let e = g.edge(k);
        assert(e.source < e.target < g.node_count_spec());
        let mut line = g.label(e.source).clone();
        line.append(", ");
        line.append(g.label(e.target).as_str());
        line.append(", ");
        let w = weight_to_text(e.weight);
        line.append(w.as_str());
        proof {
            reveal_strlit(", ");
        }
        assert(line@ =~= edge_line(g.labels_view(), e));
        r.push(line);
        k = k + 1;
    }
    r
}

} // verus!
