//! The names of a shard's files.
//!
//! A shard appends to one live file, named by the shard alone. A bucket
//! that is over is sealed under a name made of the shard and of the
//! bucket's start.

use crate::wire::twos_complement;
use vstd::prelude::*;

verus! {

/// The character of a digit below sixteen.
pub open spec fn digit_char(d: int) -> char {
    if d == 0 {
        '0'
    } else if d == 1 {
        '1'
    } else if d == 2 {
        '2'
    } else if d == 3 {
        '3'
    } else if d == 4 {
        '4'
    } else if d == 5 {
        '5'
    } else if d == 6 {
        '6'
    } else if d == 7 {
        '7'
    } else if d == 8 {
        '8'
    } else if d == 9 {
        '9'
    } else if d == 10 {
        'a'
    } else if d == 11 {
        'b'
    } else if d == 12 {
        'c'
    } else if d == 13 {
        'd'
    } else if d == 14 {
        'e'
    } else {
        'f'
    }
}

/// `n` in decimal, without leading zeros.
pub open spec fn decimal(n: nat) -> Seq<char>
    decreases n,
{
    if n < 10 {
        seq![digit_char(n as int)]
    } else {
        decimal(n / 10).push(digit_char((n % 10) as int))
    }
}

/// `n` in lower-case hexadecimal, without leading zeros.
pub open spec fn hexadecimal(n: nat) -> Seq<char>
    decreases n,
{
    if n < 16 {
        seq![digit_char(n as int)]
    } else {
        hexadecimal(n / 16).push(digit_char((n % 16) as int))
    }
}

/// The name of a shard's live file under `root`.
pub open spec fn live_name(root: Seq<char>, shard: nat) -> Seq<char> {
    root + "/writer/"@ + decimal(shard) + ".metric.tmp"@
}

/// What every sealed file of a shard begins with, after the directory: the
/// shard in decimal and an underscore.
pub open spec fn shard_prefix(shard: nat) -> Seq<char> {
    decimal(shard) + "_"@
}

/// The name under `root` of the sealed file of a shard's bucket: the shard
/// in decimal, then the bucket's start in hexadecimal, a start before the
/// epoch in 64-bit two's complement.
pub open spec fn sealed_name(root: Seq<char>, shard: nat, bucket: i64) -> Seq<char> {
    root + "/"@ + shard_prefix(shard) + hexadecimal(twos_complement(bucket) as nat)
        + ".metric.tmp"@
}

/// The digit that a character stands for; sixteen for what is no digit.
pub open spec fn digit_value(c: char) -> nat {
    if c == '0' {
        0
    } else if c == '1' {
        1
    } else if c == '2' {
        2
    } else if c == '3' {
        3
    } else if c == '4' {
        4
    } else if c == '5' {
        5
    } else if c == '6' {
        6
    } else if c == '7' {
        7
    } else if c == '8' {
        8
    } else if c == '9' {
        9
    } else if c == 'a' {
        10
    } else if c == 'b' {
        11
    } else if c == 'c' {
        12
    } else if c == 'd' {
        13
    } else if c == 'e' {
        14
    } else if c == 'f' {
        15
    } else {
        16
    }
}

/// The number that decimal digits write, most significant first.
pub open spec fn decimal_number(digits: Seq<char>) -> nat
    decreases digits.len(),
{
    if digits.len() == 0 {
        0
    } else {
        decimal_number(digits.drop_last()) * 10 + digit_value(digits.last())
    }
}

/// The number that hexadecimal digits write, most significant first.
pub open spec fn hexadecimal_number(digits: Seq<char>) -> nat
    decreases digits.len(),
{
    if digits.len() == 0 {
        0
    } else {
        hexadecimal_number(digits.drop_last()) * 16 + digit_value(digits.last())
    }
}

/// A digit's character stands for that digit.
pub proof fn lemma_digit_value(d: int)
    requires
        0 <= d < 16,
    ensures
        digit_value(digit_char(d)) == d,
{
}

/// A number in decimal is written in digits alone, at least one, and they
/// write that number.
pub proof fn lemma_decimal(n: nat)
    ensures
        decimal(n).len() > 0,
        forall|i: int| 0 <= i < decimal(n).len() ==> digit_value(#[trigger] decimal(n)[i]) < 10,
        decimal_number(decimal(n)) == n,
    decreases n,
{
    lemma_digit_value((n % 10) as int);
    assert(decimal(n).last() == digit_char((n % 10) as int));
    if n >= 10 {
        lemma_decimal(n / 10);
        assert(decimal(n).drop_last() =~= decimal(n / 10));
    } else {
        assert(decimal(n).drop_last() =~= Seq::<char>::empty());
        assert(decimal_number(Seq::<char>::empty()) == 0);
    }
}

/// A number in hexadecimal is written in digits that write that number.
pub proof fn lemma_hexadecimal(n: nat)
    ensures
        hexadecimal_number(hexadecimal(n)) == n,
    decreases n,
{
    lemma_digit_value((n % 16) as int);
    assert(hexadecimal(n).last() == digit_char((n % 16) as int));
    if n >= 16 {
        lemma_hexadecimal(n / 16);
        assert(hexadecimal(n).drop_last() =~= hexadecimal(n / 16));
    } else {
        assert(hexadecimal(n).drop_last() =~= Seq::<char>::empty());
        assert(hexadecimal_number(Seq::<char>::empty()) == 0);
    }
}

/// What stands between the same beginning and the same end of two equal
/// texts is equal.
proof fn lemma_middle(front: Seq<char>, a: Seq<char>, b: Seq<char>, back: Seq<char>)
    requires
        front + a + back == front + b + back,
    ensures
        a == b,
{
    let x = front + a + back;
    let y = front + b + back;
    assert(x.len() == front.len() + a.len() + back.len());
    assert(y.len() == front.len() + b.len() + back.len());
    assert forall|i: int| 0 <= i < a.len() implies a[i] == b[i] by {
        assert(x[front.len() + i] == a[i]);
        assert(y[front.len() + i] == b[i]);
    }
    assert(a =~= b);
}

/// Two shards' prefixes of which one begins a text that the other begins
/// too are those of one shard.
proof fn lemma_prefixes_apart(s1: nat, rest1: Seq<char>, s2: nat, rest2: Seq<char>)
    requires
        shard_prefix(s1) + rest1 == shard_prefix(s2) + rest2,
    ensures
        s1 == s2,
        rest1 == rest2,
{
    reveal_strlit("_");
    let d1 = decimal(s1);
    let d2 = decimal(s2);
    let x = shard_prefix(s1) + rest1;
    let y = shard_prefix(s2) + rest2;
    lemma_decimal(s1);
    lemma_decimal(s2);
    assert("_"@ =~= seq!['_']);
    assert(x[d1.len() as int] == '_');
    assert(y[d2.len() as int] == '_');
    if d1.len() < d2.len() {
        assert(y[d1.len() as int] == d2[d1.len() as int]);
        assert(digit_value(d2[d1.len() as int]) < 10);
    }
    if d2.len() < d1.len() {
        assert(x[d2.len() as int] == d1[d2.len() as int]);
        assert(digit_value(d1[d2.len() as int]) < 10);
    }
    assert forall|i: int| 0 <= i < d1.len() implies d1[i] == d2[i] by {
        assert(x[i] == d1[i]);
        assert(y[i] == d2[i]);
    }
    assert(d1 =~= d2);
    assert(x.skip(shard_prefix(s1).len() as int) =~= rest1);
    assert(y.skip(shard_prefix(s2).len() as int) =~= rest2);
}

/// Every bucket of every shard has a sealed file of its own: two sealed
/// files under one root that have one name are the file of one shard and
/// one bucket.
pub proof fn lemma_sealed_names_apart(root: Seq<char>, s1: nat, b1: i64, s2: nat, b2: i64)
    requires
        sealed_name(root, s1, b1) == sealed_name(root, s2, b2),
    ensures
        s1 == s2,
        b1 == b2,
{
    let front = root + "/"@;
    let back = ".metric.tmp"@;
    let h1 = hexadecimal(twos_complement(b1) as nat);
    let h2 = hexadecimal(twos_complement(b2) as nat);
    let m1 = shard_prefix(s1) + h1;
    let m2 = shard_prefix(s2) + h2;
    assert(sealed_name(root, s1, b1) =~= front + m1 + back);
    assert(sealed_name(root, s2, b2) =~= front + m2 + back);
    lemma_middle(front, m1, m2, back);
    lemma_prefixes_apart(s1, h1, s2, h2);
    lemma_hexadecimal(twos_complement(b1) as nat);
    lemma_hexadecimal(twos_complement(b2) as nat);
}

/// Every shard has a live file of its own: two live files under one root
/// that have one name are the file of one shard.
pub proof fn lemma_live_names_apart(root: Seq<char>, s1: nat, s2: nat)
    requires
        live_name(root, s1) == live_name(root, s2),
    ensures
        s1 == s2,
{
    let front = root + "/writer/"@;
    let back = ".metric.tmp"@;
    assert(live_name(root, s1) =~= front + decimal(s1) + back);
    assert(live_name(root, s2) =~= front + decimal(s2) + back);
    lemma_middle(front, decimal(s1), decimal(s2), back);
    lemma_decimal(s1);
    lemma_decimal(s2);
}

/// No live file is a sealed file: under one root, no shard's live file has
/// the name of a sealed file.
pub proof fn lemma_live_is_not_sealed(root: Seq<char>, live: nat, shard: nat, bucket: i64)
    ensures
        live_name(root, live) != sealed_name(root, shard, bucket),
{
    reveal_strlit("/writer/");
    reveal_strlit("/");
    let a = live_name(root, live);
    let b = sealed_name(root, shard, bucket);
    let at = root.len() as int + 1;
    lemma_decimal(shard);
    assert(a[at] == 'w');
    assert(b[at] == decimal(shard)[0]);
    assert(digit_value(decimal(shard)[0]) < 10);
}

/// The text of one digit.
fn digit_text(d: u64) -> (text: &'static str)
    requires
        d < 16,
    ensures
        text@ == seq![digit_char(d as int)],
{
    proof {
        reveal_strlit("0");
        reveal_strlit("1");
        reveal_strlit("2");
        reveal_strlit("3");
        reveal_strlit("4");
        reveal_strlit("5");
        reveal_strlit("6");
        reveal_strlit("7");
        reveal_strlit("8");
        reveal_strlit("9");
        reveal_strlit("a");
        reveal_strlit("b");
        reveal_strlit("c");
        reveal_strlit("d");
        reveal_strlit("e");
        reveal_strlit("f");
    }
    let text = if d == 0 {
        "0"
    } else if d == 1 {
        "1"
    } else if d == 2 {
        "2"
    } else if d == 3 {
        "3"
    } else if d == 4 {
        "4"
    } else if d == 5 {
        "5"
    } else if d == 6 {
        "6"
    } else if d == 7 {
        "7"
    } else if d == 8 {
        "8"
    } else if d == 9 {
        "9"
    } else if d == 10 {
        "a"
    } else if d == 11 {
        "b"
    } else if d == 12 {
        "c"
    } else if d == 13 {
        "d"
    } else if d == 14 {
        "e"
    } else {
        "f"
    };
    assert(text@ =~= seq![digit_char(d as int)]);
    text
}

/// Appends `n` in decimal to `out`.
fn push_decimal(out: &mut String, n: u64)
    ensures
        final(out)@ == old(out)@ + decimal(n as nat),
    decreases n,
{
    if n >= 10 {
        push_decimal(out, n / 10);
    }
    out.append(digit_text(n % 10));
    assert(out@ =~= old(out)@ + decimal(n as nat));
}

/// Appends `n` in lower-case hexadecimal to `out`.
fn push_hexadecimal(out: &mut String, n: u64)
    ensures
        final(out)@ == old(out)@ + hexadecimal(n as nat),
    decreases n,
{
    if n >= 16 {
        push_hexadecimal(out, n / 16);
    }
    out.append(digit_text(n % 16));
    assert(out@ =~= old(out)@ + hexadecimal(n as nat));
}

/// What the names of the sealed files of `shard` begin with, after the
/// directory.
pub fn shard_prefix_text(shard: usize) -> (prefix: String)
    ensures
        prefix@ == shard_prefix(shard as nat),
{
    let mut prefix = String::new();
    push_decimal(&mut prefix, shard as u64);
    prefix.append("_");
    assert(prefix@ =~= shard_prefix(shard as nat));
    prefix
}

/// The number whose 64-bit two's complement `x` is.
fn unsigned(x: i64) -> (u: u64)
    ensures
        u == twos_complement(x),
{
    if x >= 0 {
        x as u64
    } else {
        ((x - i64::MIN) as u64) + 0x8000_0000_0000_0000
    }
}

/// The name of the live file of `shard` under `root`.
pub fn live_path(root: &str, shard: usize) -> (path: String)
    ensures
        path@ == live_name(root@, shard as nat),
{
    let mut path = String::from_str(root);
    path.append("/writer/");
    push_decimal(&mut path, shard as u64);
    path.append(".metric.tmp");
    path
}

/// The name of the sealed file of the bucket of `shard` that starts at
/// `bucket`, under `root`.
pub fn sealed_path(root: &str, shard: usize, bucket: i64) -> (path: String)
    ensures
        path@ == sealed_name(root@, shard as nat, bucket),
{
    let mut path = String::from_str(root);
    path.append("/");
    path.append(shard_prefix_text(shard).as_str());
    push_hexadecimal(&mut path, unsigned(bucket));
    path.append(".metric.tmp");
    assert(path@ =~= sealed_name(root@, shard as nat, bucket));
    path
}

} // verus!
