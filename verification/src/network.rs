//! Who the parties are and where they listen: the text handling behind
//! setting up the network. A party learns its number from its host name,
//! listens on `10.10.1.<number>:8080`, and sends to every address listed in
//! the hosts file except the loopback address and its own.

use vstd::prelude::*;
use vstd::string::StrSliceExecFns;
use vstd::string::StringExecFns;

verus! {

/// Whether `c` is white space in the sense of Unicode's `White_Space`
/// property, as `char::is_whitespace` documents it.
pub open spec fn is_ws(c: char) -> bool {
    let x = c as u32;
    ||| 0x9 <= x <= 0xd
    ||| x == 0x20
    ||| x == 0x85
    ||| x == 0xa0
    ||| x == 0x1680
    ||| 0x2000 <= x <= 0x200a
    ||| x == 0x2028
    ||| x == 0x2029
    ||| x == 0x202f
    ||| x == 0x205f
    ||| x == 0x3000
}

pub fn is_whitespace(c: char) -> (res: bool)
    ensures
        res == is_ws(c),
{
    let x = c as u32;
    (0x9 <= x && x <= 0xd) || x == 0x20 || x == 0x85 || x == 0xa0 || x == 0x1680 || (0x2000 <= x
        && x <= 0x200a) || x == 0x2028 || x == 0x2029 || x == 0x202f || x == 0x205f || x == 0x3000
}

/// `s` without its leading white space.
pub open spec fn trim_start(s: Seq<char>) -> Seq<char>
    decreases s.len(),
{
    if s.len() > 0 && is_ws(s[0]) {
        trim_start(s.drop_first())
    } else {
        s
    }
}

/// `s` without its trailing white space.
pub open spec fn trim_end(s: Seq<char>) -> Seq<char>
    decreases s.len(),
{
    if s.len() > 0 && is_ws(s.last()) {
        trim_end(s.drop_last())
    } else {
        s
    }
}

/// `s` without white space at either end.
pub open spec fn trim(s: Seq<char>) -> Seq<char> {
    trim_end(trim_start(s))
}

/// The position of the first `c` in `s`, or `s.len()` when there is none.
pub open spec fn position_of(s: Seq<char>, c: char) -> nat
    decreases s.len(),
{
    if s.len() == 0 {
        0
    } else if s[0] == c {
        0
    } else {
        1 + position_of(s.drop_first(), c)
    }
}

pub proof fn lemma_position_bound(s: Seq<char>, c: char)
    ensures
        position_of(s, c) <= s.len(),
        position_of(s, c) < s.len() ==> s[position_of(s, c) as int] == c,
        forall|i: int| 0 <= i < position_of(s, c) ==> s[i] != c,
    decreases s.len(),
{
    if s.len() > 0 && s[0] != c {
        lemma_position_bound(s.drop_first(), c);
        assert forall|i: int| 0 <= i < position_of(s, c) implies s[i] != c by {
            if i > 0 {
                assert(s[i] == s.drop_first()[i - 1]);
            }
        }
    }
}

/// The pieces of `s` between line breaks, as `str::split('\n')` gives
/// them: an empty `s` is one empty line.
pub open spec fn split_lines(s: Seq<char>) -> Seq<Seq<char>>
    decreases s.len(),
{
    let i = position_of(s, '\n');
    if i >= s.len() {
        seq![s]
    } else {
        proof {
            lemma_position_bound(s, '\n');
        }
        seq![s.take(i as int)] + split_lines(s.skip((i + 1) as int))
    }
}

/// The leading run of characters of `s` that are not white space.
pub open spec fn leading_word(s: Seq<char>) -> Seq<char>
    decreases s.len(),
{
    if s.len() == 0 || is_ws(s[0]) {
        seq![]
    } else {
        seq![s[0]] + leading_word(s.drop_first())
    }
}

/// The first white-space separated word of `line`, if it has one.
pub open spec fn first_word(line: Seq<char>) -> Option<Seq<char>> {
    let t = trim_start(line);
    if t.len() == 0 {
        None
    } else {
        Some(leading_word(t))
    }
}

/// The port that every party listens on, with its colon.
pub open spec fn port_suffix() -> Seq<char> {
    seq![':', '8', '0', '8', '0']
}

/// The loopback address with the port.
pub open spec fn loopback_address() -> Seq<char> {
    seq!['1', '2', '7', '.', '0', '.', '0', '.', '1', ':', '8', '0', '8', '0']
}

/// The addresses named by `lines` (the first word of each, with the port),
/// leaving out the loopback address and `my_ip`; `None` when some line
/// names none.
pub open spec fn addresses_of_lines(lines: Seq<Seq<char>>, my_ip: Seq<char>) -> Option<
    Seq<Seq<char>>,
>
    decreases lines.len(),
{
    if lines.len() == 0 {
        Some(seq![])
    } else {
        match first_word(lines[0]) {
            None => None,
            Some(word) => {
                let ip = word + port_suffix();
                match addresses_of_lines(lines.drop_first(), my_ip) {
                    None => None,
                    Some(rest) => if ip == loopback_address() || ip == my_ip {
                        Some(rest)
                    } else {
                        Some(seq![ip] + rest)
                    },
                }
            },
        }
    }
}

/// The addresses of the other parties in a hosts file: the first word of
/// each line of the trimmed text, with the port, except the loopback
/// address and `my_ip`. `None` when some line names no address.
pub open spec fn hosts_addresses(contents: Seq<char>, my_ip: Seq<char>) -> Option<Seq<Seq<char>>> {
    addresses_of_lines(split_lines(trim(contents)), my_ip)
}


/// `Some(p + r)` when `rest` is `Some(r)`; `None` stays `None`.
pub open spec fn prepend_found(p: Seq<Seq<char>>, rest: Option<Seq<Seq<char>>>) -> Option<
    Seq<Seq<char>>,
> {
    match rest {
        None => None,
        Some(r) => Some(p + r),
    }
}

pub open spec fn string_views(v: Seq<String>) -> Seq<Seq<char>> {
    v.map_values(|s: String| s@)
}

/// The characters of `s`, one by one.
fn chars_of(s: &str) -> (res: Vec<char>)
    ensures
        res@ == s@,
{
    let n = s.unicode_len();
    let mut res: Vec<char> = Vec::new();
    let mut i: usize = 0;
    while i < n
        invariant
            n == s@.len(),
            i <= n,
            res@ == s@.take(i as int),
        decreases n - i,
    {
        let c = s.get_char(i);
        res.push(c);
        i = i + 1;
        assert(res@ =~= s@.take(i as int));
    }
    assert(res@ =~= s@);
    res
}

proof fn lemma_trim_start_step(s: Seq<char>, lo: int, hi: int)
    requires
        0 <= lo < hi <= s.len(),
        is_ws(s[lo]),
    ensures
        trim_start(s.subrange(lo, hi)) == trim_start(s.subrange(lo + 1, hi)),
{
    assert(s.subrange(lo, hi).drop_first() =~= s.subrange(lo + 1, hi));
}

proof fn lemma_trim_end_step(s: Seq<char>, lo: int, hi: int)
    requires
        0 <= lo < hi <= s.len(),
        is_ws(s[hi - 1]),
    ensures
        trim_end(s.subrange(lo, hi)) == trim_end(s.subrange(lo, hi - 1)),
{
    assert(s.subrange(lo, hi).drop_last() =~= s.subrange(lo, hi - 1));
}

/// Skips white space in `c` from `from` up to `to`.
fn skip_ws(c: &Vec<char>, from: usize, to: usize) -> (res: usize)
    requires
        from <= to <= c.len(),
    ensures
        from <= res <= to,
        trim_start(c@.subrange(from as int, to as int)) == c@.subrange(res as int, to as int),
{
    let mut i = from;
    while i < to && is_whitespace(c[i])
        invariant
            from <= i <= to <= c.len(),
            trim_start(c@.subrange(from as int, to as int)) == trim_start(
                c@.subrange(i as int, to as int),
            ),
        decreases to - i,
    {
        proof {
            lemma_trim_start_step(c@, i as int, to as int);
        }
        i = i + 1;
    }
    proof {
        if i < to {
            assert(c@.subrange(i as int, to as int)[0] == c@[i as int]);
        }
    }
    i
}

/// Where the white space at the end of `c[from..to]` begins.
fn skip_ws_back(c: &Vec<char>, from: usize, to: usize) -> (res: usize)
    requires
        from <= to <= c.len(),
    ensures
        from <= res <= to,
        trim_end(c@.subrange(from as int, to as int)) == c@.subrange(from as int, res as int),
{
    let mut j = to;
    while j > from && is_whitespace(c[j - 1])
        invariant
            from <= j <= to <= c.len(),
            trim_end(c@.subrange(from as int, to as int)) == trim_end(
                c@.subrange(from as int, j as int),
            ),
        decreases j - from,
    {
        proof {
            lemma_trim_end_step(c@, from as int, j as int);
        }
        j = j - 1;
    }
    proof {
        if j > from {
            assert(c@.subrange(from as int, j as int).last() == c@[j - 1]);
        }
    }
    j
}

/// The first position at or after `from` and before `to` where `c` holds
/// `x`, or `to`.
fn find_char(c: &Vec<char>, from: usize, to: usize, x: char) -> (res: usize)
    requires
        from <= to <= c.len(),
    ensures
        from <= res <= to,
        position_of(c@.subrange(from as int, to as int), x) == res - from,
{
    let mut i = from;
    while i < to && c[i] != x
        invariant
            from <= i <= to <= c.len(),
            forall|k: int| from <= k < i ==> c@[k] != x,
        decreases to - i,
    {
        i = i + 1;
    }
    proof {
        let sub = c@.subrange(from as int, to as int);
        assert forall|k: int| 0 <= k < i - from implies sub[k] != x by {
            assert(sub[k] == c@[from + k]);
        }
        lemma_position_exact(sub, x, (i - from) as int);
    }
    i
}

proof fn lemma_position_exact(s: Seq<char>, c: char, k: int)
    requires
        0 <= k <= s.len(),
        forall|i: int| 0 <= i < k ==> s[i] != c,
        k == s.len() || s[k] == c,
    ensures
        position_of(s, c) == k,
    decreases k,
{
    if k > 0 {
        assert forall|i: int| 0 <= i < k - 1 implies s.drop_first()[i] != c by {
            assert(s.drop_first()[i] == s[i + 1]);
        }
        lemma_position_exact(s.drop_first(), c, k - 1);
    }
}

/// The end of the run of non-white-space characters of `c` that starts at
/// `from`, looking no further than `to`.
fn word_end(c: &Vec<char>, from: usize, to: usize) -> (res: usize)
    requires
        from <= to <= c.len(),
    ensures
        from <= res <= to,
        leading_word(c@.subrange(from as int, to as int)) == c@.subrange(from as int, res as int),
{
    let mut i = from;
    while i < to && !is_whitespace(c[i])
        invariant
            from <= i <= to <= c.len(),
            forall|k: int| from <= k < i ==> !is_ws(c@[k]),
        decreases to - i,
    {
        i = i + 1;
    }
    proof {
        let sub = c@.subrange(from as int, to as int);
        assert forall|k: int| 0 <= k < i - from implies !is_ws(sub[k]) by {
            assert(sub[k] == c@[from + k]);
        }
        lemma_leading_word_exact(sub, (i - from) as int);
        assert(sub.take(i - from) =~= c@.subrange(from as int, i as int));
    }
    i
}

proof fn lemma_leading_word_exact(s: Seq<char>, k: int)
    requires
        0 <= k <= s.len(),
        forall|i: int| 0 <= i < k ==> !is_ws(s[i]),
        k == s.len() || is_ws(s[k]),
    ensures
        leading_word(s) == s.take(k),
    decreases k,
{
    if k > 0 {
        assert forall|i: int| 0 <= i < k - 1 implies !is_ws(s.drop_first()[i]) by {
            assert(s.drop_first()[i] == s[i + 1]);
        }
        lemma_leading_word_exact(s.drop_first(), k - 1);
        assert(seq![s[0]] + s.drop_first().take(k - 1) =~= s.take(k));
    } else {
        assert(s.take(0) =~= Seq::<char>::empty());
    }
}

/// Whether every line of the trimmed text of a hosts file names an
/// address (has a word).
pub open spec fn hosts_well_formed(contents: Seq<char>) -> bool {
    let lines = split_lines(trim(contents));
    forall|i: int| 0 <= i < lines.len() ==> (#[trigger] first_word(lines[i])) is Some
}

proof fn lemma_addresses_found(lines: Seq<Seq<char>>, my_ip: Seq<char>)
    ensures
        addresses_of_lines(lines, my_ip) is Some <==> forall|i: int|
            0 <= i < lines.len() ==> (#[trigger] first_word(lines[i])) is Some,
    decreases lines.len(),
{
    if lines.len() > 0 {
        lemma_addresses_found(lines.drop_first(), my_ip);
        assert forall|i: int| 1 <= i < lines.len() implies lines[i] == lines.drop_first()[i - 1] by {}
        if forall|i: int| 0 <= i < lines.drop_first().len() ==> (#[trigger] first_word(lines.drop_first()[i])) is Some {
            assert forall|i: int| 1 <= i < lines.len() implies (#[trigger] first_word(lines[i])) is Some by {
                assert(first_word(lines.drop_first()[i - 1]) is Some);
            }
        } else {
            let j = choose|j: int| 0 <= j < lines.drop_first().len() && !(first_word(lines.drop_first()[j]) is Some);
            assert(first_word(lines[j + 1]) is None);
        }
    }
}

/// The hosts file names an address on each line exactly when its addresses
/// can be read, whichever address is left out.
pub proof fn lemma_hosts_well_formed(contents: Seq<char>, my_ip: Seq<char>)
    ensures
        hosts_well_formed(contents) <==> hosts_addresses(contents, my_ip) is Some,
{
    lemma_addresses_found(split_lines(trim(contents)), my_ip);
}

/// Whether every line of the trimmed text of a hosts file names an
/// address, so that `get_ips_from_etc_hosts` can read it.
pub fn hosts_file_is_well_formed(contents: &str) -> (res: bool)
    ensures
        res == hosts_well_formed(contents@),
{
    let none = String::new();
    let ghost ip = none@;
    let found = read_hosts(contents, none);
    proof {
        lemma_hosts_well_formed(contents@, ip);
    }
    found.is_some()
}

/// The addresses of the other parties, read from the text of a hosts file:
/// the first word of each line of the trimmed text, with the port `:8080`,
/// except the loopback address and `my_ip`, in the order of the lines.
/// Every line must name an address.
pub fn get_ips_from_etc_hosts(contents: &str, my_ip: String) -> (res: Vec<String>)
    requires
        hosts_well_formed(contents@),
    ensures
        hosts_addresses(contents@, my_ip@) == Some(string_views(res@)),
{
    let ghost ip = my_ip@;
    proof {
        lemma_hosts_well_formed(contents@, ip);
    }
    match read_hosts(contents, my_ip) {
        Some(ips) => ips,
        None => {
            assert(false);
            Vec::new()
        },
    }
}

/// The addresses of the other parties in a hosts file (see
/// `get_ips_from_etc_hosts`); `None` when some line names no address.
fn read_hosts(contents: &str, my_ip: String) -> (res: Option<Vec<String>>)
    ensures
        res matches Some(ips) ==> hosts_addresses(contents@, my_ip@) == Some(string_views(ips@)),
        res is None ==> hosts_addresses(contents@, my_ip@) is None,
{
    let chars = chars_of(contents);
    let n = chars.len();
    let lo = skip_ws(&chars, 0, n);
    let hi = skip_ws_back(&chars, lo, n);
    proof {
        assert(chars@.subrange(0, n as int) =~= chars@);
        reveal_strlit(":8080");
        reveal_strlit("127.0.0.1:8080");
    }
    let loopback = String::from_str("127.0.0.1:8080");
    assert(loopback@ =~= loopback_address());
    let mut ips: Vec<String> = Vec::new();
    let mut a = lo;
    loop
        invariant
            chars@ == contents@,
            n == chars.len(),
            lo <= a <= hi <= n,
            loopback@ == loopback_address(),
            hosts_addresses(contents@, my_ip@) == prepend_found(
                string_views(ips@),
                addresses_of_lines(split_lines(chars@.subrange(a as int, hi as int)), my_ip@),
            ),
        decreases hi - a,
    {
        let b = find_char(&chars, a, hi, '\n');
        let ghost sub = chars@.subrange(a as int, hi as int);
        let ghost line = chars@.subrange(a as int, b as int);
        let ghost lines = split_lines(sub);
        proof {
            lemma_position_bound(sub, '\n');
            if b < hi {
                assert(sub.take(b - a) =~= line);
                assert(sub.skip(b - a + 1) =~= chars@.subrange(b + 1, hi as int));
                assert(lines == seq![line] + split_lines(chars@.subrange(b + 1, hi as int)));
                assert(lines[0] == line);
                assert(lines.drop_first() =~= split_lines(chars@.subrange(b + 1, hi as int)));
            } else {
                assert(line =~= sub);
                assert(lines == seq![line]);
                assert(lines.drop_first() =~= Seq::<Seq<char>>::empty());
            }
        }
        let w0 = skip_ws(&chars, a, b);
        if w0 == b {
            proof {
                assert(trim_start(line).len() == 0);
            }
            return None;
        }
        let w1 = word_end(&chars, w0, b);
        let ghost word = chars@.subrange(w0 as int, w1 as int);
        proof {
            assert(first_word(line) == Some(word));
        }
        let mut ip = String::from_str(contents.substring_char(w0, w1));
        proof {
            reveal_strlit(":8080");
            assert(":8080"@ =~= port_suffix());
        }
        ip.append(":8080");
        assert(ip@ =~= word + port_suffix());
        let skip = ip == loopback || ip == my_ip;
        let ghost before = string_views(ips@);
        if !skip {
            ips.push(ip);
            proof {
                assert(string_views(ips@) =~= before + seq![word + port_suffix()]);
            }
        }
        proof {
            let tail = if b < hi {
                split_lines(chars@.subrange(b + 1, hi as int))
            } else {
                Seq::<Seq<char>>::empty()
            };
            assert(lines.drop_first() == tail);
            let rest = addresses_of_lines(tail, my_ip@);
            assert(addresses_of_lines(lines, my_ip@) == match rest {
                None => None,
                Some(r) => if word + port_suffix() == loopback_address() || word + port_suffix()
                    == my_ip@ {
                    Some(r)
                } else {
                    Some(seq![word + port_suffix()] + r)
                },
            });
            if let Some(r) = rest {
                if !skip {
                    assert(before + (seq![word + port_suffix()] + r) =~= string_views(ips@) + r);
                }
            }
        }
        if b == hi {
            proof {
                assert(addresses_of_lines(Seq::<Seq<char>>::empty(), my_ip@) == Some(
                    Seq::<Seq<char>>::empty(),
                ));
                assert(string_views(ips@) + Seq::<Seq<char>>::empty() =~= string_views(ips@));
            }
            return Some(ips);
        }
        a = b + 1;
    }
}


/// The number in a host name: the digit just before its first `.`; `None`
/// when there is no `.`, nothing before it, or no digit there.
pub open spec fn party_number(hostname: Seq<char>) -> Option<u32> {
    let i = position_of(hostname, '.');
    if i < hostname.len() && i > 0 && '0' <= hostname[i - 1] <= '9' {
        Some((hostname[i - 1] as u32 - '0' as u32) as u32)
    } else {
        None
    }
}

/// Whether a host name holds a party number (see `party_number`).
pub fn hostname_has_party_number(hostname: &str) -> (res: bool)
    ensures
        res == party_number(hostname@) is Some,
{
    read_party_number(hostname).is_some()
}

/// A party's number, read from its host name (such as `node3.exp.lan`):
/// the digit just before the first `.`, which must be there.
pub fn party_num_from_hostname(hostname: &str) -> (res: u32)
    requires
        party_number(hostname@) is Some,
    ensures
        party_number(hostname@) == Some(res),
{
    match read_party_number(hostname) {
        Some(n) => n,
        None => {
            assert(false);
            0
        },
    }
}

fn read_party_number(hostname: &str) -> (res: Option<u32>)
    ensures
        res == party_number(hostname@),
{
    let chars = chars_of(hostname);
    let n = chars.len();
    let i = find_char(&chars, 0, n, '.');
    proof {
        assert(chars@.subrange(0, n as int) =~= chars@);
    }
    if i < n && i > 0 {
        let c = chars[i - 1];
        if '0' <= c && c <= '9' {
            return Some(c as u32 - '0' as u32);
        }
    }
    None
}

/// The character of the decimal digit `d`.
pub open spec fn digit_char(d: nat) -> char {
    seq!['0', '1', '2', '3', '4', '5', '6', '7', '8', '9'][d as int]
}

/// The decimal notation of `n`.
pub open spec fn decimal(n: nat) -> Seq<char>
    decreases n,
{
    if n < 10 {
        seq![digit_char(n)]
    } else {
        decimal(n / 10) + seq![digit_char(n % 10)]
    }
}

fn append_decimal(s: &mut String, n: u32)
    ensures
        final(s)@ == old(s)@ + decimal(n as nat),
    decreases n,
{
    if n >= 10 {
        append_decimal(s, n / 10);
    }
    let d = (n % 10) as usize;
    let digits = "0123456789";
    proof {
        reveal_strlit("0123456789");
        assert(digits@ =~= seq!['0', '1', '2', '3', '4', '5', '6', '7', '8', '9']);
    }
    let digit = digits.substring_char(d, d + 1);
    assert(digit@ =~= seq![digit_char(d as nat)]);
    let ghost mid = s@;
    s.append(digit);
    proof {
        if n >= 10 {
            assert(s@ =~= old(s)@ + decimal(n as nat));
        } else {
            assert(s@ =~= old(s)@ + decimal(n as nat));
        }
    }
}

/// The address a party listens on: `10.10.1.<number>:8080`.
pub open spec fn listen_address(my_party_num: u32) -> Seq<char> {
    seq!['1', '0', '.', '1', '0', '.', '1', '.'] + decimal(my_party_num as nat) + port_suffix()
}

/// The address party `my_party_num` listens on.
pub fn get_my_hostname(my_party_num: u32) -> (ip: String)
    ensures
        ip@ == listen_address(my_party_num),
{
    proof {
        reveal_strlit("10.10.1.");
        reveal_strlit(":8080");
    }
    let mut ip = String::from_str("10.10.1.");
    append_decimal(&mut ip, my_party_num);
    ip.append(":8080");
    ip
}

/// The name of a party: `node<number>`.
pub open spec fn node_name(my_party_num: u32) -> Seq<char> {
    seq!['n', 'o', 'd', 'e'] + decimal(my_party_num as nat)
}

/// The name of party `my_party_num`.
pub fn get_my_name(my_party_num: u32) -> (name: String)
    ensures
        name@ == node_name(my_party_num),
{
    proof {
        reveal_strlit("node");
    }
    let mut name = String::from_str("node");
    append_decimal(&mut name, my_party_num);
    name
}

/// How many parties there are: the others, and this one.
pub fn count_parties(other_ips: &Vec<String>) -> (n: u32)
    requires
        other_ips.len() < u32::MAX,
    ensures
        n == other_ips.len() + 1,
{
    (other_ips.len() as u32) + 1
}


proof fn lemma_lines_exclude(lines: Seq<Seq<char>>, my_ip: Seq<char>)
    ensures
        addresses_of_lines(lines, my_ip) matches Some(ips) ==> forall|i: int|
            0 <= i < ips.len() ==> {
                &&& #[trigger] ips[i] != loopback_address()
                &&& ips[i] != my_ip
                &&& ips[i].len() >= port_suffix().len()
                &&& ips[i].subrange(ips[i].len() - 5, ips[i].len() as int) == port_suffix()
            },
    decreases lines.len(),
{
    if lines.len() > 0 {
        lemma_lines_exclude(lines.drop_first(), my_ip);
        if let Some(word) = first_word(lines[0]) {
            if let Some(rest) = addresses_of_lines(lines.drop_first(), my_ip) {
                let ip = word + port_suffix();
                assert(ip.subrange(ip.len() - 5, ip.len() as int) =~= port_suffix());
                if !(ip == loopback_address() || ip == my_ip) {
                    let ips = seq![ip] + rest;
                    assert forall|i: int| 0 < i < ips.len() implies ips[i] == rest[i - 1] by {}
                }
            }
        }
    }
}

/// The addresses read from a hosts file never include the loopback
/// address or the party's own address, and each ends with the port
/// `:8080`.
pub proof fn lemma_hosts_exclude_loopback_and_self(contents: Seq<char>, my_ip: Seq<char>)
    ensures
        hosts_addresses(contents, my_ip) matches Some(ips) ==> forall|i: int|
            0 <= i < ips.len() ==> {
                &&& #[trigger] ips[i] != loopback_address()
                &&& ips[i] != my_ip
                &&& ips[i].len() >= port_suffix().len()
                &&& ips[i].subrange(ips[i].len() - 5, ips[i].len() as int) == port_suffix()
            },
{
    lemma_lines_exclude(split_lines(trim(contents)), my_ip);
}

/// A party number read from a host name is a single digit.
pub proof fn lemma_party_number_is_a_digit(hostname: Seq<char>)
    ensures
        party_number(hostname) matches Some(d) ==> d < 10,
{
}

} // verus!
