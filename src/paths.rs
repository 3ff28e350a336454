//! Names of the files in a store's directory.
use vstd::prelude::*;

verus! {

/// The decimal digits of `n`.
pub open spec fn decimal(n: nat) -> Seq<char>
    decreases n,
{
    if n < 10 {
        seq![digit_char(n)]
    } else {
        decimal(n / 10) + seq![digit_char(n % 10)]
    }
}

pub open spec fn digit_char(d: nat) -> char {
    (48 + d) as char
}

/// `n` in decimal, padded with zeros on the left to at least `width` digits.
pub open spec fn padded(n: nat, width: nat) -> Seq<char> {
    let d = decimal(n);
    if d.len() >= width {
        d
    } else {
        Seq::new((width - d.len()) as nat, |i: int| '0') + d
    }
}

/// The file name of a segment: its id in nine digits or more, then `.kvs`.
pub open spec fn segment_name(id: u32) -> Seq<char> {
    padded(id as nat, 9) + ".kvs"@
}

/// A file name joined to a directory: the name alone where it is absolute
/// (starts with `/`) or the directory is empty, else the two with one `/`
/// between them.
pub open spec fn joined(dir: Seq<char>, name: Seq<char>) -> Seq<char> {
    if dir.len() == 0 || (name.len() > 0 && name[0] == '/') {
        name
    } else if dir.last() == '/' {
        dir + name
    } else {
        dir + seq!['/'] + name
    }
}

proof fn lemma_decimal_len(n: nat)
    ensures
        decimal(n).len() >= 1,
    decreases n,
{
    if n >= 10 {
        lemma_decimal_len(n / 10);
    }
}

fn decimal_string(n: u32) -> (r: String)
    ensures
        r@ == decimal(n as nat),
    decreases n,
{
    if n < 10 {
        String::from_str(digit_str(n))
    } else {
        let mut s = decimal_string(n / 10);
        s.append(digit_str(n % 10));
        s
    }
}

fn digit_str(d: u32) -> (r: &'static str)
    requires
        d < 10,
    ensures
        r@ == seq![digit_char(d as nat)],
{
    proof {
        reveal_strlit("0");
        reveal_strlit("1");
        reveal_strlit("2");
        reveal_strlit("3");
        reveal_strlit("4");
        reveal_strlit("5");
        reveal_strlit("6");
        reveal_strlit("7");
        reveal_strlit("8");
        reveal_strlit("9");
    }
    let r = if d == 0 { "0" }
    else if d == 1 { "1" }
    else if d == 2 { "2" }
    else if d == 3 { "3" }
    else if d == 4 { "4" }
    else if d == 5 { "5" }
    else if d == 6 { "6" }
    else if d == 7 { "7" }
    else if d == 8 { "8" }
    else { "9" };
    assert(r@ =~= seq![digit_char(d as nat)]);
    r
}

/// The path of segment `id` in directory `dir`.
pub fn kvs_path(dir: &str, id: u32) -> (r: String)
    ensures
        r@ == joined(dir@, segment_name(id)),
{
    let digits = decimal_string(id);
    let width = digits.as_str().unicode_len();
    let mut name = String::new();
    let mut k: usize = width;
    while k < 9
        invariant
            width == decimal(id as nat).len(),
            width <= k,
            k <= 9 || k == width,
            name@ == Seq::new((k - width) as nat, |i: int| '0'),
        decreases 9 - k,
    {
        proof {
            reveal_strlit("0");
        }
        name.append("0");
        k = k + 1;
        assert(name@ =~= Seq::new((k - width) as nat, |i: int| '0'));
    }
    proof {
        lemma_decimal_len(id as nat);
        if width >= 9 {
            assert(name@ =~= Seq::<char>::empty());
        }
    }
    name.append(digits.as_str());
    let ext = ".kvs";
    name.append(ext);
    assert(name@ =~= segment_name(id));
    path_push(dir, name.as_str())
}

/// `f` joined to the directory `dir`.
pub fn path_push(dir: &str, f: &str) -> (r: String)
    ensures
        r@ == joined(dir@, f@),
{
    let n = dir.unicode_len();
    if n == 0 || (f.unicode_len() > 0 && f.get_char(0) == '/') {
        return f.to_owned();
    }
    let last = dir.get_char(n - 1);
    let base = dir.to_owned();
    if last == '/' {
        base.concat(f)
    } else {
        let sep = "/";
        proof {
            reveal_strlit("/");
        }
        let with_sep = base.concat(sep);
        with_sep.concat(f)
    }
}

pub open spec fn is_digit(c: char) -> bool {
    '0' <= c && c <= '9'
}

/// The number that decimal digits spell.
pub open spec fn digits_value(d: Seq<char>) -> nat
    decreases d.len(),
{
    if d.len() == 0 {
        0
    } else {
        digits_value(d.drop_last()) * 10 + (d.last() as nat - 48) as nat
    }
}

/// The id in a segment file's name: decimal digits then `.kvs`, the number
/// within `u32`.
pub open spec fn segment_id_of(name: Seq<char>) -> Option<u32> {
    let stem = name.subrange(0, name.len() - 4);
    if name.len() >= 5 && name.subrange(name.len() - 4, name.len() as int) == ".kvs"@ && (forall|
        i: int,
    | 0 <= i < stem.len() ==> is_digit(#[trigger] stem[i])) && digits_value(stem) <= u32::MAX {
        Some(digits_value(stem) as u32)
    } else {
        None
    }
}

/// The segment id that a file name carries, if it names a segment.
pub fn segment_id(name: &str) -> (r: Option<u32>)
    ensures
        r == segment_id_of(name@),
{
    let n = name.unicode_len();
    proof {
        reveal_strlit(".kvs");
    }
    if n < 5 {
        return None;
    }
    let suffix = name.get_char(n - 4) == '.' && name.get_char(n - 3) == 'k' && name.get_char(n - 2)
        == 'v' && name.get_char(n - 1) == 's';
    let ghost tail = name@.subrange(n - 4, n as int);
    proof {
        let lit = ".kvs"@;
        assert(lit =~= seq!['.', 'k', 'v', 's']);
        assert(tail[0] == name@[n - 4] && tail[1] == name@[n - 3] && tail[2] == name@[n - 2]
            && tail[3] == name@[n - 1]);
        if suffix {
            assert(tail =~= lit);
        } else if tail == lit {
            assert(tail[0] == lit[0] && tail[1] == lit[1] && tail[2] == lit[2] && tail[3]
                == lit[3]);
        }
    }
    if !suffix {
        return None;
    }
    let ghost stem = name@.subrange(0, n - 4);
    let mut v: u64 = 0;
    let mut i: usize = 0;
    let mut over = false;
    while i < n - 4
        invariant
            n == name@.len(),
            n >= 5,
            stem == name@.subrange(0, n - 4),
            i <= n - 4,
            forall|t: int| 0 <= t < i ==> is_digit(#[trigger] stem[t]),
            !over ==> v == digits_value(stem.subrange(0, i as int)) && v <= u32::MAX,
            over ==> digits_value(stem.subrange(0, i as int)) > u32::MAX,
        decreases n - 4 - i,
    {
        let c = name.get_char(i);
        if c < '0' || c > '9' {
            assert(!is_digit(stem[i as int]));
            return None;
        }
        proof {
            let p = stem.subrange(0, i + 1);
            assert(p.drop_last() =~= stem.subrange(0, i as int));
            assert(p.last() == c);
        }
        if !over {
            let d = (c as u32 - 48) as u64;
            assert(v * 10 + d <= 42949672959) by (nonlinear_arith)
                requires
                    v <= 4294967295,
                    d <= 9,
            ;
            v = v * 10 + d;
            if v > 4294967295 {
                over = true;
            }
        } else {
            proof {
                let p = stem.subrange(0, i + 1);
                assert(digits_value(p) >= digits_value(p.drop_last())) by (nonlinear_arith)
                    requires
                        digits_value(p) == digits_value(p.drop_last()) * 10 + (p.last() as nat
                            - 48) as nat,
                ;
            }
        }
        i = i + 1;
    }
    assert(stem.subrange(0, i as int) =~= stem);
    if over {
        None
    } else {
        Some(v as u32)
    }
}

} // verus!
