use vstd::prelude::*;

verus! {

/// The decimal digit character for `d < 10`.
pub open spec fn digit_char(d: nat) -> char {
    ((d + 48) as u8) as char
}

/// Decimal representation of `n`, without leading zeros.
pub open spec fn decimal(n: nat) -> Seq<char>
    decreases n,
{
    if n < 10 {
        seq![digit_char(n)]
    } else {
        decimal(n / 10).push(digit_char(n % 10))
    }
}

/// The dotted text of a path of 1-based ordinals: `[2, 1, 3]` reads `"2.1.3"`.
pub open spec fn path_text(p: Seq<nat>) -> Seq<char>
    decreases p.len(),
{
    if p.len() == 0 {
        Seq::empty()
    } else if p.len() == 1 {
        decimal(p[0])
    } else {
        path_text(p.drop_last()) + seq!['.'] + decimal(p.last())
    }
}

/// The ordinals that a 0-based address of child positions stands for.
pub open spec fn ordinals(a: Seq<int>) -> Seq<nat> {
    a.map_values(|i: int| (i + 1) as nat)
}

pub proof fn lemma_decimal_digits(n: nat)
    ensures
        decimal(n).len() >= 1,
        forall|k: int| 0 <= k < decimal(n).len() ==> decimal(n)[k] != '.',
    decreases n,
{
    if n >= 10 {
        lemma_decimal_digits(n / 10);
    }
}

pub proof fn lemma_decimal_injective(a: nat, b: nat)
    requires
        decimal(a) == decimal(b),
    ensures
        a == b,
    decreases a,
{
    if a >= 10 && b >= 10 {
        let da = decimal(a);
        assert(da.last() == digit_char(a % 10));
        assert(decimal(b).last() == digit_char(b % 10));
        assert(decimal(a / 10) =~= da.drop_last());
        assert(decimal(b / 10) =~= decimal(b).drop_last());
        lemma_decimal_injective(a / 10, b / 10);
        assert(a % 10 == b % 10) by {
            lemma_digit_char_injective(a % 10, b % 10);
        }
        assert(a == 10 * (a / 10) + a % 10);
        assert(b == 10 * (b / 10) + b % 10);
    } else if a >= 10 {
        lemma_decimal_digits(a / 10);
        assert(decimal(a).len() >= 2);
        assert(decimal(b).len() == 1);
    } else if b >= 10 {
        lemma_decimal_digits(b / 10);
        assert(decimal(b).len() >= 2);
        assert(decimal(a).len() == 1);
    } else {
        assert(decimal(a) == seq![digit_char(a)]);
        assert(decimal(b) == seq![digit_char(b)]);
        assert(seq![digit_char(a)][0] == digit_char(a));
        assert(seq![digit_char(b)][0] == digit_char(b));
        assert(decimal(a)[0] == decimal(b)[0]);
        lemma_digit_char_injective(a, b);
    }
}

proof fn lemma_digit_char_injective(a: nat, b: nat)
    requires
        a < 10,
        b < 10,
        digit_char(a) == digit_char(b),
    ensures
        a == b,
{
    assert(((a + 48) as u8) as u32 == (a + 48));
    assert(((b + 48) as u8) as u32 == (b + 48));
}

/// The text of a single ordinal holds no '.'.
pub proof fn lemma_path_text_dots(p: Seq<nat>)
    requires
        p.len() == 1,
    ensures
        forall|k: int| 0 <= k < path_text(p).len() ==> path_text(p)[k] != '.',
{
    lemma_decimal_digits(p[0]);
}

proof fn lemma_split_last_dot(x: Seq<char>, d: Seq<char>, y: Seq<char>, e: Seq<char>)
    requires
        x + seq!['.'] + d == y + seq!['.'] + e,
        forall|k: int| 0 <= k < d.len() ==> d[k] != '.',
        forall|k: int| 0 <= k < e.len() ==> e[k] != '.',
    ensures
        x == y,
        d == e,
{
    let s = x + seq!['.'] + d;
    let t = y + seq!['.'] + e;
    if d.len() < e.len() {
        let k = s.len() - d.len() - 1;
        assert(s[k] == '.');
        assert(t[k] == e[k - y.len() - 1]);
    } else if e.len() < d.len() {
        let k = t.len() - e.len() - 1;
        assert(t[k] == '.');
        assert(s[k] == d[k - x.len() - 1]);
    }
    assert(x =~= s.subrange(0, x.len() as int));
    assert(y =~= t.subrange(0, y.len() as int));
    assert(d =~= s.subrange(x.len() as int + 1, s.len() as int));
    assert(e =~= t.subrange(y.len() as int + 1, t.len() as int));
}

/// Distinct non-empty paths have distinct texts.
pub proof fn lemma_path_text_injective(p: Seq<nat>, q: Seq<nat>)
    requires
        p.len() >= 1,
        q.len() >= 1,
        path_text(p) == path_text(q),
    ensures
        p == q,
    decreases p.len(),
{
    if p.len() == 1 && q.len() == 1 {
        lemma_decimal_injective(p[0], q[0]);
        assert(p =~= q);
    } else if p.len() == 1 {
        lemma_path_text_dots(p);
        let x = path_text(q.drop_last());
        assert(path_text(q)[x.len() as int] == '.');
    } else if q.len() == 1 {
        lemma_path_text_dots(q);
        let x = path_text(p.drop_last());
        assert(path_text(p)[x.len() as int] == '.');
    } else {
        lemma_decimal_digits(p.last());
        lemma_decimal_digits(q.last());
        lemma_split_last_dot(
            path_text(p.drop_last()),
            decimal(p.last()),
            path_text(q.drop_last()),
            decimal(q.last()),
        );
        lemma_decimal_injective(p.last(), q.last());
        lemma_path_text_injective(p.drop_last(), q.drop_last());
        assert(p =~= p.drop_last().push(p.last()));
        assert(q =~= q.drop_last().push(q.last()));
    }
}

/// The text of one decimal digit.
fn digit_text(d: usize) -> (r: &'static str)
    requires
        d < 10,
    ensures
        r@ == seq![digit_char(d as nat)],
{
    proof {
        reveal_strlit("0");
        reveal_strlit("1");
        reveal_strlit("2");
        reveal_strlit("3");
        reveal_strlit("4");
        reveal_strlit("5");
        reveal_strlit("6");
        reveal_strlit("7");
        reveal_strlit("8");
        reveal_strlit("9");
    }
    let r = if d == 0 {
        "0"
    } else if d == 1 {
        "1"
    } else if d == 2 {
        "2"
    } else if d == 3 {
        "3"
    } else if d == 4 {
        "4"
    } else if d == 5 {
        "5"
    } else if d == 6 {
        "6"
    } else if d == 7 {
        "7"
    } else if d == 8 {
        "8"
    } else {
        "9"
    };
    assert(r@ =~= seq![digit_char(d as nat)]);
    r
}

/// Appends the decimal representation of `n` to `out`.
pub fn push_decimal(out: &mut String, n: usize)
    ensures
        final(out)@ == old(out)@ + decimal(n as nat),
    decreases n,
{
    if n >= 10 {
        push_decimal(out, n / 10);
    }
    out.append(digit_text(n % 10));
    assert(final(out)@ =~= old(out)@ + decimal(n as nat));
}

/// The decimal representation of `n`.
pub fn decimal_string(n: usize) -> (r: String)
    ensures
        r@ == decimal(n as nat),
{
    let mut r = String::new();
    push_decimal(&mut r, n);
    assert(r@ =~= decimal(n as nat));
    r
}

/// The text of `parent` extended by one more ordinal.
pub fn child_path(parent: &String, ordinal: usize, Ghost(p): Ghost<Seq<nat>>) -> (r: String)
    requires
        p.len() >= 1,
        parent@ == path_text(p),
    ensures
        r@ == path_text(p.push(ordinal as nat)),
{
    let mut r = parent.clone();
    proof {
        reveal_strlit(".");
    }
    r.append(".");
    push_decimal(&mut r, ordinal);
    assert(p.push(ordinal as nat).drop_last() =~= p);
    assert(r@ =~= path_text(p.push(ordinal as nat)));
    r
}

} // verus!
