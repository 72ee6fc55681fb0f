use vstd::prelude::*;

verus! {

/// The decimal digit character for a number below ten.
pub open spec fn digit_char(d: nat) -> char {
    if d == 0 { '0' }
    else if d == 1 { '1' }
    else if d == 2 { '2' }
    else if d == 3 { '3' }
    else if d == 4 { '4' }
    else if d == 5 { '5' }
    else if d == 6 { '6' }
    else if d == 7 { '7' }
    else if d == 8 { '8' }
    else { '9' }
}

/// The decimal rendering of a natural number, without leading zeros.
pub open spec fn decimal(n: nat) -> Seq<char>
    decreases n,
{
    if n < 10 {
        seq![digit_char(n)]
    } else {
        decimal(n / 10).push(digit_char(n % 10))
    }
}

fn digit_str(d: usize) -> (s: &'static str)
    requires
        d < 10,
    ensures
        s@ == seq![digit_char(d as nat)],
{
    if d == 0 { proof { reveal_strlit("0"); } "0" }
    else if d == 1 { proof { reveal_strlit("1"); } "1" }
    else if d == 2 { proof { reveal_strlit("2"); } "2" }
    else if d == 3 { proof { reveal_strlit("3"); } "3" }
    else if d == 4 { proof { reveal_strlit("4"); } "4" }
    else if d == 5 { proof { reveal_strlit("5"); } "5" }
    else if d == 6 { proof { reveal_strlit("6"); } "6" }
    else if d == 7 { proof { reveal_strlit("7"); } "7" }
    else if d == 8 { proof { reveal_strlit("8"); } "8" }
    else { proof { reveal_strlit("9"); } "9" }
}

/// Render a number in decimal.
pub fn decimal_string(n: usize) -> (s: String)
    ensures
        s@ == decimal(n as nat),
    decreases n,
{
    if n < 10 {
        digit_str(n).to_owned()
    } else {
        let mut s = decimal_string(n / 10);
        s.append(digit_str(n % 10));
        s
    }
}

/// A string holding the given literal-free text.
pub fn owned(s: &str) -> (r: String)
    ensures
        r@ == s@,
{
    s.to_owned()
}

/// The views of a list of strings.
pub open spec fn string_views(v: Seq<String>) -> Seq<Seq<char>> {
    v.map_values(|s: String| s@)
}

/// Parts joined by `", "`.
pub open spec fn join_comma(parts: Seq<Seq<char>>) -> Seq<char>
    decreases parts.len(),
{
    if parts.len() == 0 {
        Seq::empty()
    } else if parts.len() == 1 {
        parts[0]
    } else {
        join_comma(parts.drop_last()) + ", "@ + parts.last()
    }
}

/// Join parts with `", "` between them.
pub fn join_with_commas(parts: &Vec<String>) -> (s: String)
    ensures
        s@ == join_comma(string_views(parts@)),
{
    proof { reveal_strlit(", "); }
    let mut s = String::new();
    let mut i: usize = 0;
    while i < parts.len()
        invariant
            i <= parts@.len(),
            s@ == join_comma(string_views(parts@).subrange(0, i as int)),
        decreases parts@.len() - i,
    {
        if i > 0 {
            s.append(", ");
        }
        s.append(parts[i].as_str());
        proof {
            let next = string_views(parts@).subrange(0, i + 1);
            assert(next.drop_last() =~= string_views(parts@).subrange(0, i as int));
            assert(next.last() == parts@[i as int]@);
            if i == 0 {
                assert(next.len() == 1);
                assert(s@ =~= join_comma(next));
            } else {
                assert(s@ =~= join_comma(next));
            }
        }
        i += 1;
    }
    proof {
        assert(string_views(parts@).subrange(0, parts@.len() as int) =~= string_views(parts@));
    }
    s
}

/// The decimal renderings of some bytes.
pub open spec fn byte_texts(bs: Seq<u8>) -> Seq<Seq<char>> {
    bs.map_values(|b: u8| decimal(b as nat))
}

/// Bytes as a list is shown for debugging: `[1, 2, 3]`.
pub open spec fn debug_bytes(bs: Seq<u8>) -> Seq<char> {
    "["@ + join_comma(byte_texts(bs)) + "]"@
}

/// The smaller of two numbers.
pub open spec fn min_nat(a: nat, b: nat) -> nat {
    if a <= b { a } else { b }
}

/// At most the first `limit` bytes, shown for debugging as a list.
pub fn debug_bytes_prefix(bs: &[u8], limit: usize) -> (s: String)
    ensures
        s@ == debug_bytes(bs@.take(min_nat(bs@.len(), limit as nat) as int)),
{
    let n: usize = if bs.len() <= limit { bs.len() } else { limit };
    let ghost prefix = bs@.take(n as int);
    let mut parts: Vec<String> = Vec::new();
    let mut i: usize = 0;
    while i < n
        invariant
            n <= bs@.len(),
            i <= n,
            prefix == bs@.take(n as int),
            string_views(parts@) =~= byte_texts(prefix.take(i as int)),
        decreases n - i,
    {
        let ghost before = parts@;
        let t = decimal_string(bs[i] as usize);
        parts.push(t);
        proof {
            assert(prefix.take(i + 1) =~= prefix.take(i as int).push(bs@[i as int]));
            assert(parts@ =~= before.push(t));
            assert(string_views(parts@) =~= string_views(before).push(t@));
            assert(byte_texts(prefix.take(i + 1)) =~= byte_texts(prefix.take(i as int)).push(decimal(bs@[i as int] as nat)));
        }
        i += 1;
    }
    proof {
        assert(prefix.take(n as int) =~= prefix);
        reveal_strlit("[");
        reveal_strlit("]");
    }
    let mut s = owned("[");
    let joined = join_with_commas(&parts);
    s.append(joined.as_str());
    s.append("]");
    s
}

} // verus!
