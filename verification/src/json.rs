use vstd::prelude::*;
use vstd::string::{StrSliceExecFns, StringExecFns};
use crate::domain::{Address, Ipv4, RootDomain, RootDomainView, Subdomain, SubdomainView};

verus! {

/// The character for one decimal digit.
pub open spec fn digit_char(d: nat) -> char {
    if d == 0 {
        '0'
    } else if d == 1 {
        '1'
    } else if d == 2 {
        '2'
    } else if d == 3 {
        '3'
    } else if d == 4 {
        '4'
    } else if d == 5 {
        '5'
    } else if d == 6 {
        '6'
    } else if d == 7 {
        '7'
    } else if d == 8 {
        '8'
    } else {
        '9'
    }
}

/// Whether a character is a decimal digit.
pub open spec fn is_digit(c: char) -> bool {
    c == '0' || c == '1' || c == '2' || c == '3' || c == '4' || c == '5' || c == '6' || c == '7'
        || c == '8' || c == '9'
}

/// A name can be written between quotes unambiguously when it holds no
/// quote itself. Hostnames never do.
pub open spec fn name_ok(n: Seq<char>) -> bool {
    !n.contains('"')
}

/// All names of a report can be written unambiguously.
pub open spec fn report_names_ok(r: RootDomainView) -> bool {
    name_ok(r.name) && forall|k: int|
        0 <= k < r.subdomains.len() ==> name_ok((#[trigger] r.subdomains[k]).name)
}

/// The shortest decimal rendering of a number: no sign, no leading zero
/// (except for zero itself).
pub open spec fn spec_dec(n: nat) -> Seq<char>
    decreases n,
{
    if n < 10 {
        seq![digit_char(n)]
    } else {
        spec_dec(n / 10).push(digit_char(n % 10))
    }
}

/// The dotted-quad text of an IPv4 address.
pub open spec fn spec_ip(ip: Ipv4) -> Seq<char> {
    spec_dec(ip.0 as nat) + seq!['.'] + spec_dec(ip.1 as nat) + seq!['.'] + spec_dec(ip.2 as nat)
        + seq!['.'] + spec_dec(ip.3 as nat)
}

/// The text `{"ip":"` that opens one address object.
pub open spec fn lit_ip_open() -> Seq<char> {
    seq!['{', '"', 'i', 'p', '"', ':', '"']
}

/// One address object: `{"ip":"<dotted quad>"}`.
pub open spec fn spec_address(a: Address) -> Seq<char> {
    lit_ip_open() + spec_ip(a.ip) + seq!['"', '}']
}

/// Comma-joined list items, with no trailing comma.
pub open spec fn spec_join(items: Seq<Seq<char>>) -> Seq<char>
    decreases items.len(),
{
    if items.len() == 0 {
        Seq::empty()
    } else if items.len() == 1 {
        items[0]
    } else {
        spec_join(items.drop_last()) + seq![','] + items.last()
    }
}

/// The texts of the address objects of a list, in order.
pub open spec fn addr_items(addrs: Seq<Address>) -> Seq<Seq<char>> {
    addrs.map_values(|a: Address| spec_address(a))
}

/// A JSON array of address objects.
pub open spec fn spec_addresses(addrs: Seq<Address>) -> Seq<char> {
    seq!['['] + spec_join(addr_items(addrs)) + seq![']']
}

/// The text `{"name":"` that opens the report and each subdomain object.
pub open spec fn lit_name_open() -> Seq<char> {
    seq!['{', '"', 'n', 'a', 'm', 'e', '"', ':', '"']
}

/// The text `","addresses":` between a name and its address list.
pub open spec fn lit_addresses() -> Seq<char> {
    seq!['"', ',', '"', 'a', 'd', 'd', 'r', 'e', 's', 's', 'e', 's', '"', ':']
}

/// The text `,"subdomains":` between the root's addresses and the list of
/// discovered subdomains.
pub open spec fn lit_subdomains() -> Seq<char> {
    seq![',', '"', 's', 'u', 'b', 'd', 'o', 'm', 'a', 'i', 'n', 's', '"', ':']
}

/// One subdomain object: `{"name":"<name>","addresses":[...]}`.
pub open spec fn spec_subdomain(s: SubdomainView) -> Seq<char> {
    lit_name_open() + s.name + lit_addresses() + spec_addresses(s.addresses) + seq!['}']
}

/// The texts of the subdomain objects of a list, in order.
pub open spec fn sub_items(subs: Seq<SubdomainView>) -> Seq<Seq<char>> {
    subs.map_values(|s: SubdomainView| spec_subdomain(s))
}

/// The whole report, in the exact shape the report writer persists:
/// `{"name":"<target>","addresses":[...],"subdomains":[...]}`.
pub open spec fn spec_report(r: RootDomainView) -> Seq<char> {
    lit_name_open() + r.name + lit_addresses() + spec_addresses(r.addresses) + lit_subdomains()
        + seq!['['] + spec_join(sub_items(r.subdomains)) + seq![']', '}']
}

/// Appending one more item extends a joined list by a comma and the item.
proof fn lemma_spec_join_push(items: Seq<Seq<char>>, x: Seq<char>)
    ensures
        items.len() == 0 ==> spec_join(items.push(x)) == x,
        items.len() > 0 ==> spec_join(items.push(x)) == spec_join(items) + seq![','] + x,
{
    assert(items.push(x).drop_last() =~= items);
    assert(items.push(x).last() == x);
    if items.len() == 0 {
        assert(spec_join(items.push(x)) == items.push(x)[0]);
    }
}

/// The one-character string for a decimal digit.
fn digit_str(d: u8) -> (s: &'static str)
    requires
        d < 10,
    ensures
        s@ == seq![digit_char(d as nat)],
{
    proof {
        reveal_strlit("0");
        reveal_strlit("1");
        reveal_strlit("2");
        reveal_strlit("3");
        reveal_strlit("4");
        reveal_strlit("5");
        reveal_strlit("6");
        reveal_strlit("7");
        reveal_strlit("8");
        reveal_strlit("9");
    }
    let s = if d == 0 {
        "0"
    } else if d == 1 {
        "1"
    } else if d == 2 {
        "2"
    } else if d == 3 {
        "3"
    } else if d == 4 {
        "4"
    } else if d == 5 {
        "5"
    } else if d == 6 {
        "6"
    } else if d == 7 {
        "7"
    } else if d == 8 {
        "8"
    } else {
        "9"
    };
    proof {
        assert(s@ =~= seq![digit_char(d as nat)]);
    }
    s
}

/// Append the shortest decimal rendering of `n`.
fn push_dec(out: &mut String, n: u8)
    ensures
        final(out)@ == old(out)@ + spec_dec(n as nat),
{
    if n >= 100 {
        proof {
            vstd::arithmetic::div_mod::lemma_div_denominator(n as int, 10, 10);
        }
        out.append(digit_str(n / 100));
        out.append(digit_str((n / 10) % 10));
        out.append(digit_str(n % 10));
        proof {
            assert(spec_dec(((n / 100) as nat)) == seq![digit_char(((n / 100) as nat))]);
            assert(spec_dec(((n / 10) as nat)) == spec_dec(((n / 10) as nat) / 10).push(
                digit_char(((n / 10) as nat) % 10),
            ));
            assert(((n / 10) as nat) / 10 == ((n / 100) as nat));
            assert(spec_dec(n as nat) == spec_dec(((n / 10) as nat)).push(
                digit_char((n as nat) % 10),
            ));
            assert(out@ =~= old(out)@ + spec_dec(n as nat));
        }
    } else if n >= 10 {
        out.append(digit_str(n / 10));
        out.append(digit_str(n % 10));
        proof {
            assert(spec_dec(((n / 10) as nat)) == seq![digit_char(((n / 10) as nat))]);
            assert(spec_dec(n as nat) == spec_dec(((n / 10) as nat)).push(
                digit_char((n as nat) % 10),
            ));
            assert(out@ =~= old(out)@ + spec_dec(n as nat));
        }
    } else {
        out.append(digit_str(n));
        proof {
            assert(spec_dec(n as nat) == seq![digit_char(n as nat)]);
            assert(out@ =~= old(out)@ + spec_dec(n as nat));
        }
    }
}

/// Append the dotted-quad text of an address.
fn push_ip(out: &mut String, ip: Ipv4)
    ensures
        final(out)@ == old(out)@ + spec_ip(ip),
{
    proof {
        reveal_strlit(".");
    }
    push_dec(out, ip.0);
    out.append(".");
    push_dec(out, ip.1);
    out.append(".");
    push_dec(out, ip.2);
    out.append(".");
    push_dec(out, ip.3);
    proof {
        assert(out@ =~= old(out)@ + spec_ip(ip));
    }
}

/// Append one address object.
fn push_address(out: &mut String, a: &Address)
    ensures
        final(out)@ == old(out)@ + spec_address(*a),
{
    proof {
        reveal_strlit("{\"ip\":\"");
        reveal_strlit("\"}");
    }
    out.append("{\"ip\":\"");
    proof {
        assert(out@ =~= old(out)@ + lit_ip_open());
    }
    push_ip(out, a.ip);
    out.append("\"}");
    proof {
        assert(out@ =~= old(out)@ + spec_address(*a));
    }
}

/// Append the JSON array of a subdomain's (or the root's) addresses.
fn push_addresses(out: &mut String, addrs: &Vec<Address>)
    ensures
        final(out)@ == old(out)@ + spec_addresses(addrs@),
{
    proof {
        reveal_strlit("[");
        reveal_strlit("]");
        reveal_strlit(",");
    }
    let ghost items = addr_items(addrs@);
    out.append("[");
    let mut i: usize = 0;
    while i < addrs.len()
        invariant
            i <= addrs@.len(),
            items == addr_items(addrs@),
            out@ == old(out)@ + seq!['['] + spec_join(items.take(i as int)),
        decreases addrs@.len() - i,
    {
        proof {
            reveal_strlit(",");
        }
        if i > 0 {
            out.append(",");
        }
        push_address(out, &addrs[i]);
        proof {
            assert(items.take(i + 1) =~= items.take(i as int).push(items[i as int]));
            assert(items[i as int] == spec_address(addrs@[i as int]));
            lemma_spec_join_push(items.take(i as int), items[i as int]);
            assert(out@ =~= old(out)@ + seq!['['] + spec_join(items.take(i + 1)));
        }
        i += 1;
    }
    out.append("]");
    proof {
        assert(items.take(addrs@.len() as int) =~= items);
        assert(out@ =~= old(out)@ + spec_addresses(addrs@));
    }
}

/// Append one subdomain object.
fn push_subdomain(out: &mut String, s: &crate::domain::Subdomain)
    ensures
        final(out)@ == old(out)@ + spec_subdomain(s@),
{
    proof {
        reveal_strlit("{\"name\":\"");
        reveal_strlit("\",\"addresses\":");
        reveal_strlit("}");
    }
    out.append("{\"name\":\"");
    out.append(s.name.as_str());
    out.append("\",\"addresses\":");
    proof {
        assert(out@ =~= old(out)@ + lit_name_open() + s@.name + lit_addresses());
    }
    push_addresses(out, &s.addresses);
    out.append("}");
    proof {
        assert(out@ =~= old(out)@ + spec_subdomain(s@));
    }
}

/// Serialize the finished report to the exact JSON text the report writer
/// persists.
pub fn report_to_json(r: &RootDomain) -> (s: String)
    ensures
        s@ == spec_report(r@),
{
    proof {
        reveal_strlit("{\"name\":\"");
        reveal_strlit("\",\"addresses\":");
        reveal_strlit(",\"subdomains\":");
        reveal_strlit("[");
        reveal_strlit("]");
        reveal_strlit(",");
        reveal_strlit("]}");
    }
    let mut out = String::new();
    out.append("{\"name\":\"");
    out.append(r.name.as_str());
    out.append("\",\"addresses\":");
    proof {
        assert(out@ =~= lit_name_open() + r@.name + lit_addresses());
    }
    push_addresses(&mut out, &r.addresses);
    out.append(",\"subdomains\":");
    out.append("[");
    let ghost base = lit_name_open() + r@.name + lit_addresses() + spec_addresses(r@.addresses)
        + lit_subdomains() + seq!['['];
    proof {
        assert(out@ =~= base);
    }
    let ghost items = sub_items(r@.subdomains);
    let mut i: usize = 0;
    while i < r.subdomains.len()
        invariant
            i <= r.subdomains@.len(),
            items == sub_items(r@.subdomains),
            items.len() == r.subdomains@.len(),
            out@ == base + spec_join(items.take(i as int)),
        decreases r.subdomains@.len() - i,
    {
        proof {
            reveal_strlit(",");
        }
        if i > 0 {
            out.append(",");
        }
        push_subdomain(&mut out, &r.subdomains[i]);
        proof {
            assert(items.take(i + 1) =~= items.take(i as int).push(items[i as int]));
            assert(items[i as int] == spec_subdomain(r.subdomains@[i as int]@));
            lemma_spec_join_push(items.take(i as int), items[i as int]);
            assert(out@ =~= base + spec_join(items.take(i + 1)));
        }
        i += 1;
    }
    out.append("]}");
    proof {
        assert(items.take(r.subdomains@.len() as int) =~= items);
        assert(out@ =~= spec_report(r@));
    }
    out
}

/// Where a literal sequence stands in a text.
pub open spec fn lit_at(s: Seq<char>, i: int, lit: Seq<char>) -> bool {
    &&& 0 <= i
    &&& i + lit.len() <= s.len()
    &&& s.subrange(i, i + lit.len()) == lit
}

/// Where a canonical decimal octet stands in a text: its shortest decimal
/// rendering, followed by the end of the text or a non-digit.
pub open spec fn dec_at(s: Seq<char>, i: int, v: u8) -> bool {
    &&& lit_at(s, i, spec_dec(v as nat))
    &&& (i + spec_dec(v as nat).len() == s.len() || !is_digit(s[i + spec_dec(v as nat).len()]))
}

/// The value of a decimal digit character (zero on any other character).
pub open spec fn digit_of(c: char) -> nat {
    if c == '1' {
        1
    } else if c == '2' {
        2
    } else if c == '3' {
        3
    } else if c == '4' {
        4
    } else if c == '5' {
        5
    } else if c == '6' {
        6
    } else if c == '7' {
        7
    } else if c == '8' {
        8
    } else if c == '9' {
        9
    } else {
        0
    }
}

/// The number a sequence of digit characters denotes.
pub open spec fn val_of(ds: Seq<char>) -> nat
    decreases ds.len(),
{
    if ds.len() == 0 {
        0
    } else {
        val_of(ds.drop_last()) * 10 + digit_of(ds.last())
    }
}

/// Reading back the shortest decimal rendering gives the number.
proof fn lemma_val_of_dec(v: nat)
    ensures
        val_of(spec_dec(v)) == v,
    decreases v,
{
    if v < 10 {
        assert(spec_dec(v) == seq![digit_char(v)]);
        assert(spec_dec(v).drop_last() =~= Seq::<char>::empty());
        assert(spec_dec(v).last() == digit_char(v));
        assert(val_of(Seq::<char>::empty()) == 0);
        assert(digit_of(digit_char(v)) == v);
    } else {
        assert(spec_dec(v).drop_last() =~= spec_dec(v / 10));
        assert(spec_dec(v).last() == digit_char(v % 10));
        assert(digit_of(digit_char(v % 10)) == v % 10);
        lemma_val_of_dec(v / 10);
        vstd::arithmetic::div_mod::lemma_fundamental_div_mod(v as int, 10);
    }
}

/// No prefix of a shortest decimal rendering denotes more than the number.
proof fn lemma_val_of_dec_prefix(v: nat, k: int)
    requires
        0 <= k <= spec_dec(v).len(),
    ensures
        val_of(spec_dec(v).take(k)) <= v,
    decreases spec_dec(v).len() - k,
{
    if k == spec_dec(v).len() {
        assert(spec_dec(v).take(k) =~= spec_dec(v));
        lemma_val_of_dec(v);
    } else {
        lemma_val_of_dec_prefix(v, k + 1);
        assert(spec_dec(v).take(k + 1).drop_last() =~= spec_dec(v).take(k));
        assert(val_of(spec_dec(v).take(k + 1)) == val_of(spec_dec(v).take(k)) * 10 + digit_of(
            spec_dec(v).take(k + 1).last(),
        ));
    }
}

/// The value of a decimal digit character, if it is one.
fn digit_val(c: char) -> (r: Option<u8>)
    ensures
        r == (if is_digit(c) {
            Some(digit_of(c) as u8)
        } else {
            None::<u8>
        }),
{
    if c == '0' {
        Some(0)
    } else if c == '1' {
        Some(1)
    } else if c == '2' {
        Some(2)
    } else if c == '3' {
        Some(3)
    } else if c == '4' {
        Some(4)
    } else if c == '5' {
        Some(5)
    } else if c == '6' {
        Some(6)
    } else if c == '7' {
        Some(7)
    } else if c == '8' {
        Some(8)
    } else if c == '9' {
        Some(9)
    } else {
        None
    }
}

/// Match the literal `lit` at position `i` of `s`; the position after it
/// on success. Succeeds whenever the literal does stand there.
#[verifier::loop_isolation(false)]
fn eat_lit(s: &str, i: usize, lit: &str) -> (r: Option<usize>)
    ensures
        lit_at(s@, i as int, lit@) ==> (r matches Some(p) && p == i + lit@.len()),
{
    let n = s.unicode_len();
    let m = lit.unicode_len();
    if m > n || i > n - m {
        return None;
    }
    let mut k: usize = 0;
    while k < m
        invariant
            k <= m,
        decreases m - k,
    {
        if s.get_char(i + k) != lit.get_char(k) {
            proof {
                if lit_at(s@, i as int, lit@) {
                    assert(s@.subrange(i as int, i + lit@.len())[k as int] == lit@[k as int]);
                    assert(false);
                }
            }
            return None;
        }
        k += 1;
    }
    Some(i + m)
}

/// Find the first `"` at or after position `i`; succeeds whenever there is
/// one.
#[verifier::loop_isolation(false)]
fn scan_quote(s: &str, i: usize) -> (r: Option<usize>)
    ensures
        r matches Some(j) ==> i <= j < s@.len() && s@[j as int] == '"' && (forall|k: int|
            i <= k < j ==> s@[k] != '"'),
        (exists|j: int| i <= j < s@.len() && (#[trigger] s@[j]) == '"') ==> r is Some,
{
    let n = s.unicode_len();
    if i >= n {
        proof {
            if exists|j0: int| i <= j0 < s@.len() && (#[trigger] s@[j0]) == '"' {
                let j0 = choose|j0: int| i <= j0 < s@.len() && (#[trigger] s@[j0]) == '"';
                assert(false);
            }
        }
        return None;
    }
    let mut j = i;
    while j < n
        invariant
            i <= j <= n,
            forall|k: int| i <= k < j ==> s@[k] != '"',
        decreases n - j,
    {
        if s.get_char(j) == '"' {
            return Some(j);
        }
        j += 1;
    }
    proof {
        if exists|j0: int| i <= j0 < s@.len() && (#[trigger] s@[j0]) == '"' {
            let j0 = choose|j0: int| i <= j0 < s@.len() && (#[trigger] s@[j0]) == '"';
            assert(s@[j0] != '"');
            assert(false);
        }
    }
    None
}

/// Read a decimal number of at most three digits with value at most 255.
/// Succeeds whenever a canonical octet stands at `i`, with its value.
#[verifier::loop_isolation(false)]
#[verifier::rlimit(100)]
fn parse_u8(s: &str, i: usize) -> (r: Option<(u8, usize)>)
    ensures
        forall|v: u8| dec_at(s@, i as int, v) ==> (r matches Some(p) && p.0 == v && p.1 == i
            + spec_dec(v as nat).len()),
{
    let n = s.unicode_len();
    if i >= n {
        proof {
            assert forall|v: u8| !dec_at(s@, i as int, v) by {
                if dec_at(s@, i as int, v) {
                    crate::json_laws::lemma_dec_is_digits(v as nat);
                    assert(false);
                }
            }
        }
        return None;
    }
    let mut j = i;
    let mut acc: u32 = 0;
    let mut stop = false;
    while !stop && j < n
        invariant
            i <= j <= n,
            acc <= 255,
            forall|k: int| i <= k < j ==> is_digit(#[trigger] s@[k]),
            acc == val_of(s@.subrange(i as int, j as int)),
            stop ==> j < n && !is_digit(s@[j as int]),
            forall|v: u8| dec_at(s@, i as int, v) ==> j <= i + spec_dec(v as nat).len(),
        decreases n - j + (if stop {
            0int
        } else {
            1int
        }),
    {
        let c = s.get_char(j);
        match digit_val(c) {
            Some(d) => {
                proof {
                    assert forall|v: u8| dec_at(s@, i as int, v) implies j + 1 <= i + spec_dec(
                        v as nat,
                    ).len() by {
                        if j == i + spec_dec(v as nat).len() {
                            assert(is_digit(s@[j as int]));
                            assert(false);
                        }
                    }
                }
                let acc2 = acc * 10 + (d as u32);
                proof {
                    assert(digit_of(c) < 10);
                    assert(s@.subrange(i as int, j + 1).drop_last() =~= s@.subrange(
                        i as int,
                        j as int,
                    ));
                    assert(s@.subrange(i as int, j + 1).last() == s@[j as int]);
                    assert(acc2 == val_of(s@.subrange(i as int, j + 1)));
                }
                if acc2 > 255 {
                    proof {
                        assert forall|v: u8| !dec_at(s@, i as int, v) by {
                            if dec_at(s@, i as int, v) {
                                let l = spec_dec(v as nat).len() as int;
                                assert forall|k: int| 0 <= k < j + 1 - i implies (#[trigger] s@.subrange(
                                    i as int,
                                    j + 1,
                                )[k]) == spec_dec(v as nat).take(j + 1 - i)[k] by {
                                    assert(s@.subrange(i as int, i + l)[k] == spec_dec(
                                        v as nat,
                                    )[k]);
                                }
                                assert(s@.subrange(i as int, j + 1) =~= spec_dec(v as nat).take(
                                    j + 1 - i,
                                ));
                                lemma_val_of_dec_prefix(v as nat, j + 1 - i);
                                assert(acc2 <= v);
                                assert(false);
                            }
                        }
                    }
                    return None;
                }
                acc = acc2;
                j += 1;
            }
            None => {
                stop = true;
            }
        }
    }
    if j == i {
        proof {
            assert forall|v: u8| !dec_at(s@, i as int, v) by {
                if dec_at(s@, i as int, v) {
                    crate::json_laws::lemma_dec_is_digits(v as nat);
                    assert(s@.subrange(i as int, i + spec_dec(v as nat).len())[0] == spec_dec(
                        v as nat,
                    )[0]);
                    assert(is_digit(s@[i as int]));
                    assert(false);
                }
            }
        }
        return None;
    }
    proof {
        assert forall|v: u8| dec_at(s@, i as int, v) implies acc as u8 == v && j == i + spec_dec(
            v as nat,
        ).len() by {
            let l = spec_dec(v as nat).len() as int;
            if j < i + l {
                assert(s@.subrange(i as int, i + l)[j - i] == spec_dec(v as nat)[j - i]);
                crate::json_laws::lemma_dec_is_digits(v as nat);
                assert(is_digit(s@[j as int]));
                assert(false);
            }
            assert(j == i + l);
            assert forall|k: int| 0 <= k < l implies (#[trigger] s@.subrange(i as int, j as int)[k])
                == spec_dec(v as nat)[k] by {
                assert(s@.subrange(i as int, i + l)[k] == spec_dec(v as nat)[k]);
            }
            assert(s@.subrange(i as int, j as int) =~= spec_dec(v as nat));
            lemma_val_of_dec(v as nat);
            assert(acc == v);
        }
    }
    Some((acc as u8, j))
}

/// Where one address object stands in a text.
pub open spec fn address_at(s: Seq<char>, i: int, a: Address) -> bool {
    lit_at(s, i, spec_address(a))
}

/// Where an address object stands, each of its pieces stands at its
/// offset, and nothing else can be read there.
#[verifier::rlimit(100)]
proof fn lemma_address_at_parts(s: Seq<char>, i: int, a: Address)
    requires
        address_at(s, i, a),
    ensures
        lit_at(s, i, lit_ip_open()),
        dec_at(s, i + 7, a.ip.0),
        lit_at(s, i + 7 + spec_dec(a.ip.0 as nat).len(), seq!['.']),
        dec_at(s, i + 8 + spec_dec(a.ip.0 as nat).len(), a.ip.1),
        lit_at(
            s,
            i + 8 + spec_dec(a.ip.0 as nat).len() + spec_dec(a.ip.1 as nat).len(),
            seq!['.'],
        ),
        dec_at(s, i + 9 + spec_dec(a.ip.0 as nat).len() + spec_dec(a.ip.1 as nat).len(), a.ip.2),
        lit_at(
            s,
            i + 9 + spec_dec(a.ip.0 as nat).len() + spec_dec(a.ip.1 as nat).len() + spec_dec(
                a.ip.2 as nat,
            ).len(),
            seq!['.'],
        ),
        dec_at(
            s,
            i + 10 + spec_dec(a.ip.0 as nat).len() + spec_dec(a.ip.1 as nat).len() + spec_dec(
                a.ip.2 as nat,
            ).len(),
            a.ip.3,
        ),
        lit_at(
            s,
            i + 10 + spec_dec(a.ip.0 as nat).len() + spec_dec(a.ip.1 as nat).len() + spec_dec(
                a.ip.2 as nat,
            ).len() + spec_dec(a.ip.3 as nat).len(),
            seq!['"', '}'],
        ),
        spec_address(a).len() == 12 + spec_dec(a.ip.0 as nat).len() + spec_dec(
            a.ip.1 as nat,
        ).len() + spec_dec(a.ip.2 as nat).len() + spec_dec(a.ip.3 as nat).len(),
{
    let d0 = spec_dec(a.ip.0 as nat);
    let d1 = spec_dec(a.ip.1 as nat);
    let d2 = spec_dec(a.ip.2 as nat);
    let d3 = spec_dec(a.ip.3 as nat);
    let w = spec_address(a);
    let ip = spec_ip(a.ip);
    let l0 = d0.len() as int;
    let l1 = d1.len() as int;
    let l2 = d2.len() as int;
    let l3 = d3.len() as int;
    let e1 = d0 + seq!['.'];
    let e2 = e1 + d1;
    let e3 = e2 + seq!['.'];
    let e4 = e3 + d2;
    let e5 = e4 + seq!['.'];
    let li = lit_ip_open() + ip;
    assert(ip == e5 + d3);
    assert(w == li + seq!['"', '}']);
    assert(w.len() == 12 + d0.len() + d1.len() + d2.len() + d3.len());
    assert forall|t: int| 0 <= t < w.len() implies s[i + t] == (#[trigger] w[t]) by {
        assert(s.subrange(i, i + w.len())[t] == w[t]);
    }
    assert forall|t: int| 0 <= t < ip.len() implies w[7 + t] == (#[trigger] ip[t]) by {
        assert(li[7 + t] == ip[t]);
        assert(w[7 + t] == li[7 + t]);
    }
    assert forall|t: int| 0 <= t < d0.len() implies ip[t] == (#[trigger] d0[t]) by {
        assert(e1[t] == d0[t]);
        assert(e2[t] == e1[t]);
        assert(e3[t] == e2[t]);
        assert(e4[t] == e3[t]);
        assert(e5[t] == e4[t]);
        assert(ip[t] == e5[t]);
    }
    assert forall|t: int| 0 <= t < d1.len() implies ip[l0 + 1 + t] == (#[trigger] d1[t]) by {
        let u = l0 + 1 + t;
        assert(e2[u] == d1[t]);
        assert(e3[u] == e2[u]);
        assert(e4[u] == e3[u]);
        assert(e5[u] == e4[u]);
        assert(ip[u] == e5[u]);
    }
    assert forall|t: int| 0 <= t < d2.len() implies ip[l0 + l1 + 2 + t] == (#[trigger] d2[t]) by {
        let u = l0 + l1 + 2 + t;
        assert(e4[u] == d2[t]);
        assert(e5[u] == e4[u]);
        assert(ip[u] == e5[u]);
    }
    assert forall|t: int| 0 <= t < d3.len() implies ip[l0 + l1 + l2 + 3 + t]
        == (#[trigger] d3[t]) by {
        let u = l0 + l1 + l2 + 3 + t;
        assert(ip[u] == d3[t]);
    }
    assert(ip[l0] == '.') by {
        assert(e1[l0] == '.');
        assert(e2[l0] == e1[l0]);
        assert(e3[l0] == e2[l0]);
        assert(e4[l0] == e3[l0]);
        assert(e5[l0] == e4[l0]);
        assert(ip[l0] == e5[l0]);
    }
    assert(ip[l0 + l1 + 1] == '.') by {
        let u = l0 + l1 + 1;
        assert(e3[u] == '.');
        assert(e4[u] == e3[u]);
        assert(e5[u] == e4[u]);
        assert(ip[u] == e5[u]);
    }
    assert(ip[l0 + l1 + l2 + 2] == '.') by {
        let u = l0 + l1 + l2 + 2;
        assert(e5[u] == '.');
        assert(ip[u] == e5[u]);
    }
    assert(w[7 + ip.len() as int] == '"' && w[8 + ip.len() as int] == '}') by {
        assert(w[7 + ip.len() as int] == seq!['"', '}'][0]);
        assert(w[8 + ip.len() as int] == seq!['"', '}'][1]);
    }
    assert forall|t: int| 0 <= t < 7 implies w[t] == (#[trigger] lit_ip_open()[t]) by {
        assert(li[t] == lit_ip_open()[t]);
        assert(w[t] == li[t]);
    }
    assert(s.subrange(i, i + 7) =~= lit_ip_open());
    assert(s.subrange(i + 7, i + 7 + l0) =~= d0);
    assert(s[i + 7 + l0] == '.');
    assert(s.subrange(i + 7 + l0, i + 8 + l0) =~= seq!['.']);
    assert(s.subrange(i + 8 + l0, i + 8 + l0 + l1) =~= d1);
    assert(s[i + 8 + l0 + l1] == '.');
    assert(s.subrange(i + 8 + l0 + l1, i + 9 + l0 + l1) =~= seq!['.']);
    assert(s.subrange(i + 9 + l0 + l1, i + 9 + l0 + l1 + l2)
        =~= d2);
    assert(s[i + 9 + l0 + l1 + l2] == '.');
    assert(s.subrange(
        i + 9 + l0 + l1 + l2,
        i + 10 + l0 + l1 + l2,
    ) =~= seq!['.']);
    assert(s.subrange(
        i + 10 + l0 + l1 + l2,
        i + 10 + l0 + l1 + l2 + l3,
    ) =~= d3);
    assert(s[i + 10 + l0 + l1 + l2 + l3] == '"');
    assert(s.subrange(
        i + 10 + l0 + l1 + l2 + l3,
        i + 12 + l0 + l1 + l2 + l3,
    ) =~= seq!['"', '}']);
}

/// Read one `{"ip":"a.b.c.d"}` object. Succeeds whenever one stands at
/// `i`, with its address.
#[verifier::rlimit(100)]
fn parse_address(s: &str, i: usize) -> (r: Option<(Address, usize)>)
    ensures
        forall|a: Address| address_at(s@, i as int, a) ==> (r matches Some(p) && p.0 == a && p.1
            == i + spec_address(a).len()),
{
    let ghost i0 = i as int;
    proof {
        reveal_strlit("{\"ip\":\"");
        reveal_strlit(".");
        reveal_strlit("\"}");
        assert("{\"ip\":\""@ =~= lit_ip_open());
        assert("."@ =~= seq!['.']);
        assert("\"}"@ =~= seq!['"', '}']);
    }
    let i1 = match eat_lit(s, i, "{\"ip\":\"") {
        Some(p) => p,
        None => {
            proof {
                assert forall|a: Address| !address_at(s@, i0, a) by {
                    if address_at(s@, i0, a) {
                        lemma_address_at_parts(s@, i0, a);
                        assert(false);
                    }
                }
            }
            return None;
        }
    };
    proof {
        assert forall|a: Address| address_at(s@, i0, a) implies i1 == i0 + 7 by {
            lemma_address_at_parts(s@, i0, a);
        }
    }
    let (o0, i2) = match parse_u8(s, i1) {
        Some(p) => p,
        None => {
            proof {
                assert forall|a: Address| !address_at(s@, i0, a) by {
                    if address_at(s@, i0, a) {
                        lemma_address_at_parts(s@, i0, a);
                        assert(dec_at(s@, i1 as int, a.ip.0));
                        assert(false);
                    }
                }
            }
            return None;
        }
    };
    proof {
        assert forall|a: Address| address_at(s@, i0, a) implies o0 == a.ip.0 && i2 == i1
            + spec_dec(a.ip.0 as nat).len() by {
            lemma_address_at_parts(s@, i0, a);
            assert(dec_at(s@, i1 as int, a.ip.0));
        }
    }
    let i3 = match eat_lit(s, i2, ".") {
        Some(p) => p,
        None => {
            proof {
                assert forall|a: Address| !address_at(s@, i0, a) by {
                    if address_at(s@, i0, a) {
                        lemma_address_at_parts(s@, i0, a);
                        assert(lit_at(s@, i2 as int, "."@));
                        assert(false);
                    }
                }
            }
            return None;
        }
    };
    let (o1, i4) = match parse_u8(s, i3) {
        Some(p) => p,
        None => {
            proof {
                assert forall|a: Address| !address_at(s@, i0, a) by {
                    if address_at(s@, i0, a) {
                        lemma_address_at_parts(s@, i0, a);
                        assert(dec_at(s@, i3 as int, a.ip.1));
                        assert(false);
                    }
                }
            }
            return None;
        }
    };
    proof {
        assert forall|a: Address| address_at(s@, i0, a) implies o1 == a.ip.1 && i4 == i3
            + spec_dec(a.ip.1 as nat).len() by {
            lemma_address_at_parts(s@, i0, a);
            assert(dec_at(s@, i3 as int, a.ip.1));
        }
    }
    let i5 = match eat_lit(s, i4, ".") {
        Some(p) => p,
        None => {
            proof {
                assert forall|a: Address| !address_at(s@, i0, a) by {
                    if address_at(s@, i0, a) {
                        lemma_address_at_parts(s@, i0, a);
                        assert(lit_at(s@, i4 as int, "."@));
                        assert(false);
                    }
                }
            }
            return None;
        }
    };
    let (o2, i6) = match parse_u8(s, i5) {
        Some(p) => p,
        None => {
            proof {
                assert forall|a: Address| !address_at(s@, i0, a) by {
                    if address_at(s@, i0, a) {
                        lemma_address_at_parts(s@, i0, a);
                        assert(dec_at(s@, i5 as int, a.ip.2));
                        assert(false);
                    }
                }
            }
            return None;
        }
    };
    proof {
        assert forall|a: Address| address_at(s@, i0, a) implies o2 == a.ip.2 && i6 == i5
            + spec_dec(a.ip.2 as nat).len() by {
            lemma_address_at_parts(s@, i0, a);
            assert(dec_at(s@, i5 as int, a.ip.2));
        }
    }
    let i7 = match eat_lit(s, i6, ".") {
        Some(p) => p,
        None => {
            proof {
                assert forall|a: Address| !address_at(s@, i0, a) by {
                    if address_at(s@, i0, a) {
                        lemma_address_at_parts(s@, i0, a);
                        assert(lit_at(s@, i6 as int, "."@));
                        assert(false);
                    }
                }
            }
            return None;
        }
    };
    let (o3, i8) = match parse_u8(s, i7) {
        Some(p) => p,
        None => {
            proof {
                assert forall|a: Address| !address_at(s@, i0, a) by {
                    if address_at(s@, i0, a) {
                        lemma_address_at_parts(s@, i0, a);
                        assert(dec_at(s@, i7 as int, a.ip.3));
                        assert(false);
                    }
                }
            }
            return None;
        }
    };
    proof {
        assert forall|a: Address| address_at(s@, i0, a) implies o3 == a.ip.3 && i8 == i7
            + spec_dec(a.ip.3 as nat).len() by {
            lemma_address_at_parts(s@, i0, a);
            assert(dec_at(s@, i7 as int, a.ip.3));
        }
    }
    let i9 = match eat_lit(s, i8, "\"}") {
        Some(p) => p,
        None => {
            proof {
                assert forall|a: Address| !address_at(s@, i0, a) by {
                    if address_at(s@, i0, a) {
                        lemma_address_at_parts(s@, i0, a);
                        assert(lit_at(s@, i8 as int, "\"}"@));
                        assert(false);
                    }
                }
            }
            return None;
        }
    };
    proof {
        assert forall|a: Address| address_at(s@, i0, a) implies (Ipv4(o0, o1, o2, o3) == a.ip
            && i9 == i0 + spec_address(a).len()) by {
            lemma_address_at_parts(s@, i0, a);
            assert(a.ip == Ipv4(a.ip.0, a.ip.1, a.ip.2, a.ip.3));
        }
    }
    Some((Address { ip: Ipv4(o0, o1, o2, o3) }, i9))
}

/// Where a whole address list stands in a text.
pub open spec fn addresses_at(s: Seq<char>, i: int, addrs: Seq<Address>) -> bool {
    lit_at(s, i, spec_addresses(addrs))
}

/// Where the unread rest of an address list stands: the items from `k`
/// on, then the closing bracket.
pub open spec fn addr_tail_at(s: Seq<char>, cur: int, addrs: Seq<Address>, k: int) -> bool {
    lit_at(s, cur, spec_join(addr_items(addrs).skip(k)) + seq![']'])
}

/// Entering an address list: the bracket opens it, and the whole tail
/// follows.
proof fn lemma_addresses_at_init(s: Seq<char>, i: int, addrs: Seq<Address>)
    requires
        addresses_at(s, i, addrs),
    ensures
        lit_at(s, i, seq!['[']),
        addr_tail_at(s, i + 1, addrs, 0),
        i + 1 + spec_join(addr_items(addrs)).len() + 1 == i + spec_addresses(addrs).len(),
        addrs.len() == 0 ==> s[i + 1] == ']',
        addrs.len() > 0 ==> s[i + 1] == '{',
{
    let items = addr_items(addrs);
    let jn = spec_join(items);
    let w = spec_addresses(addrs);
    assert(w == seq!['['] + jn + seq![']']);
    assert forall|t: int| 0 <= t < w.len() implies s[i + t] == (#[trigger] w[t]) by {
        assert(s.subrange(i, i + w.len())[t] == w[t]);
    }
    assert forall|t: int| 0 <= t < jn.len() implies w[1 + t] == (#[trigger] jn[t]) by {
        assert((seq!['['] + jn)[1 + t] == jn[t]);
        assert(w[1 + t] == (seq!['['] + jn)[1 + t]);
    }
    assert(s.subrange(i, i + 1) =~= seq!['[']);
    assert(items.skip(0) =~= items);
    assert(w[1 + jn.len() as int] == ']') by {
        assert(w[(seq!['['] + jn).len() as int] == seq![']'][0]);
    }
    assert forall|t: int| 0 <= t < (jn + seq![']']).len() implies s[i + 1 + t] == (#[trigger] (jn
        + seq![']'])[t]) by {
        if t < jn.len() {
            assert(w[1 + t] == jn[t]);
        } else {
            assert((jn + seq![']'])[t] == ']');
        }
    }
    assert(s.subrange(i + 1, i + 1 + (jn + seq![']']).len()) =~= jn + seq![']']);
    if addrs.len() == 0 {
        assert(w[1] == ']');
    } else {
        assert(items[0] == spec_address(addrs[0]));
        if addrs.len() == 1 {
            assert(jn == items[0]);
        } else {
            crate::json_laws::lemma_join_front(items);
        }
        assert(jn[0] == items[0][0]);
        assert(items[0][0] == lit_ip_open()[0]);
        assert(w[1] == '{');
    }
}

/// One step through an address list: the item stands at the cursor, and a
/// comma or the closing bracket follows it.
#[verifier::rlimit(100)]
proof fn lemma_addr_tail_step(s: Seq<char>, cur: int, addrs: Seq<Address>, k: int)
    requires
        0 <= k < addrs.len(),
        addr_tail_at(s, cur, addrs, k),
    ensures
        address_at(s, cur, addrs[k]),
        k + 1 < addrs.len() ==> s[cur + spec_address(addrs[k]).len()] == ','
            && addr_tail_at(s, cur + spec_address(addrs[k]).len() + 1, addrs, k + 1)
            && spec_join(addr_items(addrs).skip(k)).len() == spec_address(addrs[k]).len() + 1
            + spec_join(addr_items(addrs).skip(k + 1)).len(),
        k + 1 == addrs.len() ==> s[cur + spec_address(addrs[k]).len()] == ']'
            && spec_join(addr_items(addrs).skip(k)).len() == spec_address(addrs[k]).len(),
{
    let items = addr_items(addrs);
    let item = spec_address(addrs[k]);
    let rest = items.skip(k);
    let w = spec_join(rest) + seq![']'];
    assert(rest[0] == items[k]);
    assert(items[k] == item);
    assert forall|t: int| 0 <= t < w.len() implies s[cur + t] == (#[trigger] w[t]) by {
        assert(s.subrange(cur, cur + w.len())[t] == w[t]);
    }
    if k + 1 == addrs.len() {
        assert(rest.len() == 1);
        assert(spec_join(rest) == rest[0]);
        assert forall|t: int| 0 <= t < item.len() implies w[t] == (#[trigger] item[t]) by {
            assert((spec_join(rest) + seq![']'])[t] == spec_join(rest)[t]);
        }
        assert(s.subrange(cur, cur + item.len()) =~= item);
        assert(w[item.len() as int] == ']');
    } else {
        assert(rest.len() >= 2);
        crate::json_laws::lemma_join_front(rest);
        assert(rest.drop_first() =~= items.skip(k + 1));
        let tail = spec_join(items.skip(k + 1));
        assert(spec_join(rest) == item + seq![','] + tail);
        let g1 = item + seq![','];
        let g2 = g1 + tail;
        assert(spec_join(rest) == g2);
        assert forall|t: int| 0 <= t < item.len() implies w[t] == (#[trigger] item[t]) by {
            assert(g1[t] == item[t]);
            assert(g2[t] == g1[t]);
            assert(w[t] == g2[t]);
        }
        assert(s.subrange(cur, cur + item.len()) =~= item);
        assert(w[item.len() as int] == ',') by {
            assert(g1[item.len() as int] == ',');
            assert(g2[item.len() as int] == g1[item.len() as int]);
            assert(w[item.len() as int] == g2[item.len() as int]);
        }
        let w2 = tail + seq![']'];
        assert forall|t: int| 0 <= t < w2.len() implies s[cur + item.len() + 1 + t] == (
        #[trigger] w2[t]) by {
            if t < tail.len() {
                assert(g2[item.len() + 1 + t] == tail[t]);
                assert(w[item.len() + 1 + t] == g2[item.len() + 1 + t]);
                assert(w2[t] == tail[t]);
            } else {
                assert(w[item.len() + 1 + t] == ']');
                assert(w2[t] == ']');
            }
        }
        assert(s.subrange(cur + item.len() + 1, cur + item.len() + 1 + w2.len()) =~= w2);
    }
}

/// Read a `[...]` array of address objects. Succeeds whenever a whole
/// address list stands at `i`, with its addresses.
#[verifier::loop_isolation(false)]
#[verifier::rlimit(100)]
fn parse_addresses(s: &str, i: usize) -> (r: Option<(Vec<Address>, usize)>)
    ensures
        forall|addrs: Seq<Address>| addresses_at(s@, i as int, addrs) ==> (r matches Some(p)
            && p.0@ == addrs && p.1 == i + spec_addresses(addrs).len()),
{
    let ghost i0 = i as int;
    proof {
        reveal_strlit("[");
        assert("["@ =~= seq!['[']);
    }
    let n = s.unicode_len();
    let mut i = match eat_lit(s, i, "[") {
        Some(p) => p,
        None => {
            proof {
                assert forall|addrs: Seq<Address>| !addresses_at(s@, i0, addrs) by {
                    if addresses_at(s@, i0, addrs) {
                        lemma_addresses_at_init(s@, i0, addrs);
                        assert(false);
                    }
                }
            }
            return None;
        }
    };
    let mut out: Vec<Address> = Vec::new();
    if i > n {
        proof {
            assert forall|addrs: Seq<Address>| !addresses_at(s@, i0, addrs) by {
                if addresses_at(s@, i0, addrs) {
                    lemma_addresses_at_init(s@, i0, addrs);
                    assert(false);
                }
            }
        }
        return None;
    }
    if i < n && s.get_char(i) == ']' {
        proof {
            assert forall|addrs: Seq<Address>| addresses_at(s@, i0, addrs) implies out@ == addrs
                && i + 1 == i0 + spec_addresses(addrs).len() by {
                lemma_addresses_at_init(s@, i0, addrs);
                if addrs.len() > 0 {
                    assert(s@[i as int] == '{');
                    assert(false);
                }
                assert(out@ =~= addrs);
            }
        }
        return Some((out, i + 1));
    }
    proof {
        assert forall|addrs: Seq<Address>| addresses_at(s@, i0, addrs) implies {
            &&& out@.len() < addrs.len()
            &&& out@ == addrs.take(out@.len() as int)
            &&& addr_tail_at(s@, i as int, addrs, out@.len() as int)
            &&& i + spec_join(addr_items(addrs).skip(out@.len() as int)).len() + 1 == i0
                + spec_addresses(addrs).len()
        } by {
            lemma_addresses_at_init(s@, i0, addrs);
            assert(i == i0 + 1);
            if addrs.len() == 0 {
                assert(spec_addresses(addrs).len() == 2);
                assert(i0 + 2 <= s@.len());
                assert(s@[i as int] == ']');
                assert(false);
            }
            assert(out@ =~= addrs.take(0));
            assert(addr_items(addrs).skip(0) =~= addr_items(addrs));
        }
    }
    loop
        invariant
            i <= n,
            forall|addrs: Seq<Address>| addresses_at(s@, i0, addrs) ==> {
                &&& out@.len() < addrs.len()
                &&& out@ == addrs.take(out@.len() as int)
                &&& addr_tail_at(s@, i as int, addrs, out@.len() as int)
                &&& i + spec_join(addr_items(addrs).skip(out@.len() as int)).len() + 1 == i0
                    + spec_addresses(addrs).len()
            },
        decreases n - i,
    {
        let ghost k = out@.len() as int;
        let ghost iprev = i as int;
        let (a, next) = match parse_address(s, i) {
            Some(p) => p,
            None => {
                proof {
                    assert forall|addrs: Seq<Address>| !addresses_at(s@, i0, addrs) by {
                        if addresses_at(s@, i0, addrs) {
                            lemma_addr_tail_step(s@, iprev, addrs, k);
                            assert(false);
                        }
                    }
                }
                return None;
            }
        };
        if next <= i || next > n {
            proof {
                assert forall|addrs: Seq<Address>| !addresses_at(s@, i0, addrs) by {
                    if addresses_at(s@, i0, addrs) {
                        lemma_addr_tail_step(s@, iprev, addrs, k);
                        assert(next == iprev + spec_address(addrs[k]).len());
                        assert(spec_address(addrs[k]).len() <= spec_join(
                            addr_items(addrs).skip(k),
                        ).len());
                        assert(i0 + spec_addresses(addrs).len() <= s@.len());
                        assert(false);
                    }
                }
            }
            return None;
        }
        i = next;
        out.push(a);
        proof {
            assert forall|addrs: Seq<Address>| addresses_at(s@, i0, addrs) implies out@
                == addrs.take(k + 1) && i == iprev + spec_address(addrs[k]).len() by {
                lemma_addr_tail_step(s@, iprev, addrs, k);
                assert(a == addrs[k]);
                assert(addrs.take(k + 1) =~= addrs.take(k).push(addrs[k]));
            }
        }
        if i < n && s.get_char(i) == ',' {
            proof {
                assert forall|addrs: Seq<Address>| addresses_at(s@, i0, addrs) implies {
                    &&& out@.len() < addrs.len()
                    &&& addr_tail_at(s@, i + 1, addrs, out@.len() as int)
                    &&& i + 1 + spec_join(addr_items(addrs).skip(out@.len() as int)).len() + 1
                        == i0 + spec_addresses(addrs).len()
                } by {
                    lemma_addr_tail_step(s@, iprev, addrs, k);
                    if k + 1 == addrs.len() {
                        assert(s@[i as int] == ']');
                        assert(false);
                    }
                }
            }
            i += 1;
        } else if i < n && s.get_char(i) == ']' {
            proof {
                assert forall|addrs: Seq<Address>| addresses_at(s@, i0, addrs) implies out@
                    == addrs && i + 1 == i0 + spec_addresses(addrs).len() by {
                    lemma_addr_tail_step(s@, iprev, addrs, k);
                    if k + 1 < addrs.len() {
                        assert(s@[i as int] == ',');
                        assert(false);
                    }
                    assert(out@ =~= addrs);
                }
            }
            return Some((out, i + 1));
        } else {
            proof {
                assert forall|addrs: Seq<Address>| !addresses_at(s@, i0, addrs) by {
                    if addresses_at(s@, i0, addrs) {
                        lemma_addr_tail_step(s@, iprev, addrs, k);
                        assert(i0 + spec_addresses(addrs).len() <= s@.len());
                        if k + 1 == addrs.len() {
                            assert(s@[i as int] == ']');
                            assert(i < n);
                        } else {
                            assert(s@[i as int] == ',');
                            assert(i < n);
                        }
                        assert(false);
                    }
                }
            }
            return None;
        }
    }
}

/// All names among a sequence of subdomain entries hold no quote.
pub open spec fn sub_names_ok(subs: Seq<SubdomainView>) -> bool {
    forall|k: int| 0 <= k < subs.len() ==> name_ok((#[trigger] subs[k]).name)
}

/// The entries a parsed vector of subdomains stands for.
pub open spec fn parsed_subs(v: Seq<Subdomain>) -> Seq<SubdomainView> {
    v.map_values(|x: Subdomain| x@)
}

/// Where one subdomain object stands in a text.
pub open spec fn sub_at(s: Seq<char>, i: int, sv: SubdomainView) -> bool {
    lit_at(s, i, spec_subdomain(sv))
}

/// Where a subdomain object with a quote-free name stands, each of its
/// pieces stands at its offset.
#[verifier::rlimit(100)]
proof fn lemma_sub_at_parts(s: Seq<char>, i: int, sv: SubdomainView)
    requires
        sub_at(s, i, sv),
        name_ok(sv.name),
    ensures
        lit_at(s, i, lit_name_open()),
        s.subrange(i + 9, i + 9 + sv.name.len()) == sv.name,
        forall|t: int| i + 9 <= t < i + 9 + sv.name.len() ==> s[t] != '"',
        s[i + 9 + sv.name.len()] == '"',
        lit_at(s, i + 9 + sv.name.len(), lit_addresses()),
        addresses_at(s, i + 23 + sv.name.len(), sv.addresses),
        lit_at(s, i + 23 + sv.name.len() + spec_addresses(sv.addresses).len(), seq!['}']),
        spec_subdomain(sv).len() == 24 + sv.name.len() + spec_addresses(sv.addresses).len(),
{
    let w = spec_subdomain(sv);
    let nm = sv.name;
    let la = spec_addresses(sv.addresses);
    let g1 = lit_name_open() + nm;
    let g2 = g1 + lit_addresses();
    let g3 = g2 + la;
    assert(w == g3 + seq!['}']);
    assert(w.len() == 24 + nm.len() + la.len());
    assert forall|t: int| 0 <= t < w.len() implies s[i + t] == (#[trigger] w[t]) by {
        assert(s.subrange(i, i + w.len())[t] == w[t]);
    }
    assert forall|t: int| 0 <= t < 9 implies w[t] == (#[trigger] lit_name_open()[t]) by {
        assert(g1[t] == lit_name_open()[t]);
        assert(g2[t] == g1[t]);
        assert(g3[t] == g2[t]);
        assert(w[t] == g3[t]);
    }
    assert(s.subrange(i, i + 9) =~= lit_name_open());
    assert forall|t: int| 0 <= t < nm.len() implies w[9 + t] == (#[trigger] nm[t]) by {
        assert(g1[9 + t] == nm[t]);
        assert(g2[9 + t] == g1[9 + t]);
        assert(g3[9 + t] == g2[9 + t]);
        assert(w[9 + t] == g3[9 + t]);
    }
    assert(s.subrange(i + 9, i + 9 + nm.len()) =~= nm);
    assert forall|t: int| i + 9 <= t < i + 9 + nm.len() implies s[t] != '"' by {
        assert(s[t] == nm[t - (i + 9)]);
        assert(!nm.contains(nm[t - (i + 9)]) || nm[t - (i + 9)] != '"') by {
            assert(nm[t - (i + 9)] != '"');
        }
    }
    assert forall|t: int| 0 <= t < 14 implies w[9 + nm.len() + t] == (
    #[trigger] lit_addresses()[t]) by {
        assert(g2[9 + nm.len() + t] == lit_addresses()[t]);
        assert(g3[9 + nm.len() + t] == g2[9 + nm.len() + t]);
        assert(w[9 + nm.len() + t] == g3[9 + nm.len() + t]);
    }
    assert(s[i + 9 + nm.len()] == '"') by {
        assert(w[9 + nm.len() as int] == lit_addresses()[0]);
    }
    assert(s.subrange(i + 9 + nm.len(), i + 23 + nm.len()) =~= lit_addresses());
    assert forall|t: int| 0 <= t < la.len() implies w[23 + nm.len() + t] == (#[trigger] la[t]) by {
        assert(g3[23 + nm.len() + t] == la[t]);
        assert(w[23 + nm.len() + t] == g3[23 + nm.len() + t]);
    }
    assert(s.subrange(i + 23 + nm.len(), i + 23 + nm.len() + la.len()) =~= la);
    assert(s[i + 23 + nm.len() + la.len()] == '}') by {
        assert(w[g3.len() as int] == '}');
    }
    assert(s.subrange(i + 23 + nm.len() + la.len(), i + 24 + nm.len() + la.len())
        =~= seq!['}']);
}

/// Read one `{"name":"...","addresses":[...]}` object. Succeeds whenever
/// one with a quote-free name stands at `i`; the name it returns never
/// holds a quote.
#[verifier::loop_isolation(false)]
#[verifier::rlimit(100)]
fn parse_subdomain(s: &str, i: usize) -> (r: Option<(Subdomain, usize)>)
    ensures
        forall|sv: SubdomainView| sub_at(s@, i as int, sv) && name_ok(sv.name) ==> (r matches Some(
            p,
        ) && p.0@ == sv && p.1 == i + spec_subdomain(sv).len()),
        r matches Some(p) ==> name_ok(p.0@.name),
{
    let ghost i0 = i as int;
    proof {
        reveal_strlit("{\"name\":\"");
        reveal_strlit("\",\"addresses\":");
        reveal_strlit("}");
        assert("{\"name\":\""@ =~= lit_name_open());
        assert("\",\"addresses\":"@ =~= lit_addresses());
        assert("}"@ =~= seq!['}']);
    }
    let i1 = match eat_lit(s, i, "{\"name\":\"") {
        Some(p) => p,
        None => {
            proof {
                assert forall|sv: SubdomainView| !(sub_at(s@, i0, sv) && name_ok(sv.name)) by {
                    if sub_at(s@, i0, sv) && name_ok(sv.name) {
                        lemma_sub_at_parts(s@, i0, sv);
                        assert(false);
                    }
                }
            }
            return None;
        }
    };
    let j = match scan_quote(s, i1) {
        Some(j) => j,
        None => {
            proof {
                assert forall|sv: SubdomainView| !(sub_at(s@, i0, sv) && name_ok(sv.name)) by {
                    if sub_at(s@, i0, sv) && name_ok(sv.name) {
                        lemma_sub_at_parts(s@, i0, sv);
                        assert(s@[i0 + 9 + sv.name.len()] == '"');
                        assert(false);
                    }
                }
            }
            return None;
        }
    };
    proof {
        assert forall|sv: SubdomainView| sub_at(s@, i0, sv) && name_ok(sv.name) implies j == i0
            + 9 + sv.name.len() by {
            lemma_sub_at_parts(s@, i0, sv);
            assert(s@[i0 + 9 + sv.name.len()] == '"');
            if j < i0 + 9 + sv.name.len() {
                assert(s@[j as int] != '"');
                assert(false);
            }
            if j > i0 + 9 + sv.name.len() {
                assert(s@[i0 + 9 + sv.name.len()] != '"');
                assert(false);
            }
        }
    }
    let name = s.substring_char(i1, j).to_owned();
    proof {
        assert(name_ok(name@)) by {
            if name@.contains('"') {
                let t = choose|t: int| 0 <= t < name@.len() && name@[t] == '"';
                assert(s@[i1 + t] == '"');
                assert(false);
            }
        }
    }
    let i2 = match eat_lit(s, j, "\",\"addresses\":") {
        Some(p) => p,
        None => {
            proof {
                assert forall|sv: SubdomainView| !(sub_at(s@, i0, sv) && name_ok(sv.name)) by {
                    if sub_at(s@, i0, sv) && name_ok(sv.name) {
                        lemma_sub_at_parts(s@, i0, sv);
                        assert(lit_at(s@, j as int, "\",\"addresses\":"@));
                        assert(false);
                    }
                }
            }
            return None;
        }
    };
    let (addresses, i3) = match parse_addresses(s, i2) {
        Some(p) => p,
        None => {
            proof {
                assert forall|sv: SubdomainView| !(sub_at(s@, i0, sv) && name_ok(sv.name)) by {
                    if sub_at(s@, i0, sv) && name_ok(sv.name) {
                        lemma_sub_at_parts(s@, i0, sv);
                        assert(addresses_at(s@, i2 as int, sv.addresses));
                        assert(false);
                    }
                }
            }
            return None;
        }
    };
    let i4 = match eat_lit(s, i3, "}") {
        Some(p) => p,
        None => {
            proof {
                assert forall|sv: SubdomainView| !(sub_at(s@, i0, sv) && name_ok(sv.name)) by {
                    if sub_at(s@, i0, sv) && name_ok(sv.name) {
                        lemma_sub_at_parts(s@, i0, sv);
                        assert(addresses_at(s@, i2 as int, sv.addresses));
                        assert(i3 == i2 + spec_addresses(sv.addresses).len());
                        assert(lit_at(s@, i3 as int, "}"@));
                        assert(false);
                    }
                }
            }
            return None;
        }
    };
    proof {
        assert forall|sv: SubdomainView| sub_at(s@, i0, sv) && name_ok(sv.name) implies (
        SubdomainView { name: name@, addresses: addresses@ }) == sv && i4 == i0 + spec_subdomain(
            sv,
        ).len() by {
            lemma_sub_at_parts(s@, i0, sv);
            assert(name@ == s@.subrange(i1 as int, j as int));
            assert(addresses_at(s@, i2 as int, sv.addresses));
            assert((SubdomainView { name: name@, addresses: addresses@ }) =~= sv);
        }
    }
    Some((Subdomain { name, addresses }, i4))
}

/// Where a whole subdomain list (brackets included) stands in a text.
pub open spec fn sub_list_at(s: Seq<char>, i: int, subs: Seq<SubdomainView>) -> bool {
    lit_at(s, i, seq!['['] + spec_join(sub_items(subs)) + seq![']'])
}

/// Where the unread rest of a subdomain list stands.
pub open spec fn sub_tail_at(s: Seq<char>, cur: int, subs: Seq<SubdomainView>, k: int) -> bool {
    lit_at(s, cur, spec_join(sub_items(subs).skip(k)) + seq![']'])
}

/// Entering a subdomain list: the bracket opens it, and the whole tail
/// follows.
proof fn lemma_sub_list_at_init(s: Seq<char>, i: int, subs: Seq<SubdomainView>)
    requires
        sub_list_at(s, i, subs),
    ensures
        lit_at(s, i, seq!['[']),
        sub_tail_at(s, i + 1, subs, 0),
        i + 1 + spec_join(sub_items(subs)).len() + 1 == i + (seq!['['] + spec_join(
            sub_items(subs),
        ) + seq![']']).len(),
        subs.len() == 0 ==> s[i + 1] == ']',
        subs.len() > 0 ==> s[i + 1] == '{',
{
    let items = sub_items(subs);
    let jn = spec_join(items);
    let w = seq!['['] + jn + seq![']'];
    assert forall|t: int| 0 <= t < w.len() implies s[i + t] == (#[trigger] w[t]) by {
        assert(s.subrange(i, i + w.len())[t] == w[t]);
    }
    assert forall|t: int| 0 <= t < jn.len() implies w[1 + t] == (#[trigger] jn[t]) by {
        assert((seq!['['] + jn)[1 + t] == jn[t]);
        assert(w[1 + t] == (seq!['['] + jn)[1 + t]);
    }
    assert(s.subrange(i, i + 1) =~= seq!['[']);
    assert(items.skip(0) =~= items);
    assert(w[1 + jn.len() as int] == ']') by {
        assert(w[(seq!['['] + jn).len() as int] == seq![']'][0]);
    }
    assert forall|t: int| 0 <= t < (jn + seq![']']).len() implies s[i + 1 + t] == (#[trigger] (jn
        + seq![']'])[t]) by {
        if t < jn.len() {
            assert(w[1 + t] == jn[t]);
        } else {
            assert((jn + seq![']'])[t] == ']');
        }
    }
    assert(s.subrange(i + 1, i + 1 + (jn + seq![']']).len()) =~= jn + seq![']']);
    if subs.len() == 0 {
        assert(w[1] == ']');
    } else {
        assert(items[0] == spec_subdomain(subs[0]));
        if subs.len() == 1 {
            assert(jn == items[0]);
        } else {
            crate::json_laws::lemma_join_front(items);
        }
        assert(jn[0] == items[0][0]);
        assert(items[0][0] == lit_name_open()[0]);
        assert(w[1] == '{');
    }
}

/// One step through a subdomain list: the item stands at the cursor, and
/// a comma or the closing bracket follows it.
#[verifier::rlimit(100)]
proof fn lemma_sub_tail_step(s: Seq<char>, cur: int, subs: Seq<SubdomainView>, k: int)
    requires
        0 <= k < subs.len(),
        sub_tail_at(s, cur, subs, k),
    ensures
        sub_at(s, cur, subs[k]),
        k + 1 < subs.len() ==> s[cur + spec_subdomain(subs[k]).len()] == ','
            && sub_tail_at(s, cur + spec_subdomain(subs[k]).len() + 1, subs, k + 1)
            && spec_join(sub_items(subs).skip(k)).len() == spec_subdomain(subs[k]).len() + 1
            + spec_join(sub_items(subs).skip(k + 1)).len(),
        k + 1 == subs.len() ==> s[cur + spec_subdomain(subs[k]).len()] == ']'
            && spec_join(sub_items(subs).skip(k)).len() == spec_subdomain(subs[k]).len(),
{
    let items = sub_items(subs);
    let item = spec_subdomain(subs[k]);
    let rest = items.skip(k);
    let w = spec_join(rest) + seq![']'];
    assert(rest[0] == items[k]);
    assert(items[k] == item);
    assert forall|t: int| 0 <= t < w.len() implies s[cur + t] == (#[trigger] w[t]) by {
        assert(s.subrange(cur, cur + w.len())[t] == w[t]);
    }
    if k + 1 == subs.len() {
        assert(rest.len() == 1);
        assert(spec_join(rest) == rest[0]);
        assert forall|t: int| 0 <= t < item.len() implies w[t] == (#[trigger] item[t]) by {
            assert((spec_join(rest) + seq![']'])[t] == spec_join(rest)[t]);
        }
        assert(s.subrange(cur, cur + item.len()) =~= item);
        assert(w[item.len() as int] == ']');
    } else {
        assert(rest.len() >= 2);
        crate::json_laws::lemma_join_front(rest);
        assert(rest.drop_first() =~= items.skip(k + 1));
        let tail = spec_join(items.skip(k + 1));
        assert(spec_join(rest) == item + seq![','] + tail);
        let g1 = item + seq![','];
        let g2 = g1 + tail;
        assert(spec_join(rest) == g2);
        assert forall|t: int| 0 <= t < item.len() implies w[t] == (#[trigger] item[t]) by {
            assert(g1[t] == item[t]);
            assert(g2[t] == g1[t]);
            assert(w[t] == g2[t]);
        }
        assert(s.subrange(cur, cur + item.len()) =~= item);
        assert(w[item.len() as int] == ',') by {
            assert(g1[item.len() as int] == ',');
            assert(g2[item.len() as int] == g1[item.len() as int]);
            assert(w[item.len() as int] == g2[item.len() as int]);
        }
        let w2 = tail + seq![']'];
        assert forall|t: int| 0 <= t < w2.len() implies s[cur + item.len() + 1 + t] == (
        #[trigger] w2[t]) by {
            if t < tail.len() {
                assert(g2[item.len() + 1 + t] == tail[t]);
                assert(w[item.len() + 1 + t] == g2[item.len() + 1 + t]);
                assert(w2[t] == tail[t]);
            } else {
                assert(w[item.len() + 1 + t] == ']');
                assert(w2[t] == ']');
            }
        }
        assert(s.subrange(cur + item.len() + 1, cur + item.len() + 1 + w2.len()) =~= w2);
    }
}

/// Read a `[...]` array of subdomain objects. Succeeds whenever a whole
/// list with quote-free names stands at `i`; no returned name holds a
/// quote.
#[verifier::loop_isolation(false)]
#[verifier::rlimit(100)]
fn parse_subdomains(s: &str, i: usize) -> (r: Option<(Vec<Subdomain>, usize)>)
    ensures
        forall|subs: Seq<SubdomainView>| sub_list_at(s@, i as int, subs) && sub_names_ok(subs)
            ==> (r matches Some(p) && parsed_subs(p.0@) == subs && p.1 == i + 2 + spec_join(
            sub_items(subs),
        ).len()),
        r matches Some(p) ==> sub_names_ok(parsed_subs(p.0@)),
{
    let ghost i0 = i as int;
    proof {
        reveal_strlit("[");
        assert("["@ =~= seq!['[']);
    }
    let n = s.unicode_len();
    let mut i = match eat_lit(s, i, "[") {
        Some(p) => p,
        None => {
            proof {
                assert forall|subs: Seq<SubdomainView>| !(sub_list_at(s@, i0, subs)
                    && sub_names_ok(subs)) by {
                    if sub_list_at(s@, i0, subs) && sub_names_ok(subs) {
                        lemma_sub_list_at_init(s@, i0, subs);
                        assert(false);
                    }
                }
            }
            return None;
        }
    };
    let mut out: Vec<Subdomain> = Vec::new();
    if i > n {
        proof {
            assert forall|subs: Seq<SubdomainView>| !(sub_list_at(s@, i0, subs) && sub_names_ok(
                subs,
            )) by {
                if sub_list_at(s@, i0, subs) && sub_names_ok(subs) {
                    lemma_sub_list_at_init(s@, i0, subs);
                    assert(false);
                }
            }
        }
        return None;
    }
    if i < n && s.get_char(i) == ']' {
        proof {
            assert(parsed_subs(out@) =~= Seq::<SubdomainView>::empty());
            assert forall|subs: Seq<SubdomainView>| sub_list_at(s@, i0, subs) && sub_names_ok(
                subs,
            ) implies parsed_subs(out@) == subs && i + 1 == i0 + 2 + spec_join(
                sub_items(subs),
            ).len() by {
                lemma_sub_list_at_init(s@, i0, subs);
                if subs.len() > 0 {
                    assert(s@[i as int] == '{');
                    assert(false);
                }
                assert(parsed_subs(out@) =~= subs);
            }
        }
        return Some((out, i + 1));
    }
    proof {
        assert forall|subs: Seq<SubdomainView>| sub_list_at(s@, i0, subs) && sub_names_ok(subs)
            implies {
            &&& parsed_subs(out@).len() < subs.len()
            &&& parsed_subs(out@) == subs.take(out@.len() as int)
            &&& sub_tail_at(s@, i as int, subs, out@.len() as int)
            &&& i + spec_join(sub_items(subs).skip(out@.len() as int)).len() + 1 == i0 + 2
                + spec_join(sub_items(subs)).len()
        } by {
            lemma_sub_list_at_init(s@, i0, subs);
            assert(i == i0 + 1);
            if subs.len() == 0 {
                assert(i0 + 2 <= s@.len());
                assert(s@[i as int] == ']');
                assert(false);
            }
            assert(parsed_subs(out@) =~= subs.take(0));
            assert(sub_items(subs).skip(0) =~= sub_items(subs));
        }
    }
    loop
        invariant
            i <= n,
            sub_names_ok(parsed_subs(out@)),
            forall|subs: Seq<SubdomainView>| sub_list_at(s@, i0, subs) && sub_names_ok(subs)
                ==> {
                &&& out@.len() < subs.len()
                &&& parsed_subs(out@) == subs.take(out@.len() as int)
                &&& sub_tail_at(s@, i as int, subs, out@.len() as int)
                &&& i + spec_join(sub_items(subs).skip(out@.len() as int)).len() + 1 == i0 + 2
                    + spec_join(sub_items(subs)).len()
            },
        decreases n - i,
    {
        let ghost k = out@.len() as int;
        let ghost iprev = i as int;
        let (sub, next) = match parse_subdomain(s, i) {
            Some(p) => p,
            None => {
                proof {
                    assert forall|subs: Seq<SubdomainView>| !(sub_list_at(s@, i0, subs)
                        && sub_names_ok(subs)) by {
                        if sub_list_at(s@, i0, subs) && sub_names_ok(subs) {
                            lemma_sub_tail_step(s@, iprev, subs, k);
                            assert(name_ok(subs[k].name));
                            assert(false);
                        }
                    }
                }
                return None;
            }
        };
        if next <= i || next > n {
            proof {
                assert forall|subs: Seq<SubdomainView>| !(sub_list_at(s@, i0, subs)
                    && sub_names_ok(subs)) by {
                    if sub_list_at(s@, i0, subs) && sub_names_ok(subs) {
                        lemma_sub_tail_step(s@, iprev, subs, k);
                        assert(name_ok(subs[k].name));
                        assert(next == iprev + spec_subdomain(subs[k]).len());
                        assert(spec_subdomain(subs[k]).len() <= spec_join(
                            sub_items(subs).skip(k),
                        ).len());
                        assert(i0 + 2 + spec_join(sub_items(subs)).len() <= s@.len());
                        assert(false);
                    }
                }
            }
            return None;
        }
        i = next;
        let ghost subv = sub@;
        let ghost prev = out@;
        out.push(sub);
        proof {
            assert(out@[prev.len() as int]@ == subv);
            assert forall|t: int| 0 <= t < parsed_subs(out@).len() implies name_ok(
                (#[trigger] parsed_subs(out@)[t]).name,
            ) by {
                if t < prev.len() {
                    assert(parsed_subs(prev)[t] == prev[t]@);
                    assert(parsed_subs(out@)[t] == out@[t]@);
                    assert(out@[t] == prev[t]);
                    assert(name_ok(parsed_subs(prev)[t].name));
                } else {
                    assert(parsed_subs(out@)[t] == out@[t]@);
                    assert(out@[t]@ == subv);
                    assert(name_ok(subv.name));
                }
            }
            assert forall|subs: Seq<SubdomainView>| sub_list_at(s@, i0, subs) && sub_names_ok(
                subs,
            ) implies parsed_subs(out@) == subs.take(k + 1) && subv == subs[k] && i == iprev
                + spec_subdomain(subs[k]).len() by {
                lemma_sub_tail_step(s@, iprev, subs, k);
                assert(name_ok(subs[k].name));
                assert(subv == subs[k]);
                assert(subs.take(k + 1) =~= subs.take(k).push(subs[k]));
                assert(parsed_subs(out@) =~= subs.take(k + 1));
            }
        }
        if i < n && s.get_char(i) == ',' {
            proof {
                assert forall|subs: Seq<SubdomainView>| sub_list_at(s@, i0, subs)
                    && sub_names_ok(subs) implies {
                    &&& out@.len() < subs.len()
                    &&& sub_tail_at(s@, i + 1, subs, out@.len() as int)
                    &&& i + 1 + spec_join(sub_items(subs).skip(out@.len() as int)).len() + 1
                        == i0 + 2 + spec_join(sub_items(subs)).len()
                } by {
                    lemma_sub_tail_step(s@, iprev, subs, k);
                    if k + 1 == subs.len() {
                        assert(s@[i as int] == ']');
                        assert(false);
                    }
                }
            }
            i += 1;
        } else if i < n && s.get_char(i) == ']' {
            proof {
                assert forall|subs: Seq<SubdomainView>| sub_list_at(s@, i0, subs)
                    && sub_names_ok(subs) implies parsed_subs(out@) == subs && i + 1 == i0 + 2
                    + spec_join(sub_items(subs)).len() by {
                    lemma_sub_tail_step(s@, iprev, subs, k);
                    if k + 1 < subs.len() {
                        assert(s@[i as int] == ',');
                        assert(false);
                    }
                    assert(parsed_subs(out@) =~= subs);
                }
            }
            return Some((out, i + 1));
        } else {
            proof {
                assert forall|subs: Seq<SubdomainView>| !(sub_list_at(s@, i0, subs)
                    && sub_names_ok(subs)) by {
                    if sub_list_at(s@, i0, subs) && sub_names_ok(subs) {
                        lemma_sub_tail_step(s@, iprev, subs, k);
                        assert(i0 + 2 + spec_join(sub_items(subs)).len() <= s@.len());
                        if k + 1 == subs.len() {
                            assert(s@[i as int] == ']');
                            assert(i < n);
                        } else {
                            assert(s@[i as int] == ',');
                            assert(i < n);
                        }
                        assert(false);
                    }
                }
            }
            return None;
        }
    }
}

/// Where a whole canonical report text stands, each of its pieces stands
/// at its offset.
#[verifier::rlimit(100)]
proof fn lemma_report_parts(s: Seq<char>, rv: RootDomainView)
    requires
        report_names_ok(rv),
        s == spec_report(rv),
    ensures
        lit_at(s, 0, lit_name_open()),
        s.subrange(9, 9 + rv.name.len() as int) == rv.name,
        forall|t: int| 9 <= t < 9 + rv.name.len() as int ==> s[t] != '"',
        s[9 + rv.name.len() as int] == '"',
        lit_at(s, 9 + rv.name.len() as int, lit_addresses()),
        addresses_at(s, 23 + rv.name.len() as int, rv.addresses),
        lit_at(s, 23 + rv.name.len() as int + spec_addresses(rv.addresses).len(), lit_subdomains()),
        sub_list_at(s, 37 + rv.name.len() as int + spec_addresses(rv.addresses).len(), rv.subdomains),
        lit_at(
            s,
            39 + rv.name.len() as int + spec_addresses(rv.addresses).len() + spec_join(
                sub_items(rv.subdomains),
            ).len(),
            seq!['}'],
        ),
        s.len() == 40 + rv.name.len() as int + spec_addresses(rv.addresses).len() + spec_join(
            sub_items(rv.subdomains),
        ).len(),
{
    let nm = rv.name;
    let la = spec_addresses(rv.addresses);
    let jn = spec_join(sub_items(rv.subdomains));
    let g1 = lit_name_open() + nm;
    let g2 = g1 + lit_addresses();
    let g3 = g2 + la;
    let g4 = g3 + lit_subdomains();
    let g5 = g4 + seq!['['];
    let g6 = g5 + jn;
    let w = spec_report(rv);
    assert(w == g6 + seq![']', '}']);
    assert(w.len() as int == 40 + nm.len() as int + la.len() as int + jn.len() as int);
    assert forall|t: int| 0 <= t < w.len() as int implies s[t] == (#[trigger] w[t]) by {}
    assert forall|t: int| 0 <= t < 9 implies w[t] == (#[trigger] lit_name_open()[t]) by {
        assert(g1[t] == lit_name_open()[t]);
        assert(g2[t] == g1[t]);
        assert(g3[t] == g2[t]);
        assert(g4[t] == g3[t]);
        assert(g5[t] == g4[t]);
        assert(g6[t] == g5[t]);
        assert(w[t] == g6[t]);
    }
    assert(s.subrange(0, 9) =~= lit_name_open());
    assert forall|t: int| 0 <= t < nm.len() as int implies w[9 + t] == (#[trigger] nm[t]) by {
        let u = 9 + t;
        assert(g1[u] == nm[t]);
        assert(g2[u] == g1[u]);
        assert(g3[u] == g2[u]);
        assert(g4[u] == g3[u]);
        assert(g5[u] == g4[u]);
        assert(g6[u] == g5[u]);
        assert(w[u] == g6[u]);
    }
    assert(s.subrange(9, 9 + nm.len() as int) =~= nm);
    assert forall|t: int| 9 <= t < 9 + nm.len() as int implies s[t] != '"' by {
        assert(s[t] == nm[t - 9]);
        assert(nm[t - 9] != '"');
    }
    assert forall|t: int| 0 <= t < 14 implies w[9 + nm.len() as int + t] == (
    #[trigger] lit_addresses()[t]) by {
        let u = 9 + nm.len() as int + t;
        assert(g2[u] == lit_addresses()[t]);
        assert(g3[u] == g2[u]);
        assert(g4[u] == g3[u]);
        assert(g5[u] == g4[u]);
        assert(g6[u] == g5[u]);
        assert(w[u] == g6[u]);
    }
    assert(s[9 + nm.len() as int] == '"') by {
        assert(w[9 + nm.len() as int] == lit_addresses()[0]);
    }
    assert(s.subrange(9 + nm.len() as int, 23 + nm.len() as int) =~= lit_addresses());
    assert forall|t: int| 0 <= t < la.len() as int implies w[23 + nm.len() as int + t] == (#[trigger] la[t]) by {
        let u = 23 + nm.len() as int + t;
        assert(g3[u] == la[t]);
        assert(g4[u] == g3[u]);
        assert(g5[u] == g4[u]);
        assert(g6[u] == g5[u]);
        assert(w[u] == g6[u]);
    }
    assert(s.subrange(23 + nm.len() as int, 23 + nm.len() as int + la.len() as int) =~= la);
    assert forall|t: int| 0 <= t < 14 implies w[23 + nm.len() as int + la.len() as int + t] == (
    #[trigger] lit_subdomains()[t]) by {
        let u = 23 + nm.len() as int + la.len() as int + t;
        assert(g4[u] == lit_subdomains()[t]);
        assert(g5[u] == g4[u]);
        assert(g6[u] == g5[u]);
        assert(w[u] == g6[u]);
    }
    assert(s.subrange(23 + nm.len() as int + la.len() as int, 37 + nm.len() as int + la.len() as int) =~= lit_subdomains());
    let sl = seq!['['] + jn + seq![']'];
    assert forall|t: int| 0 <= t < sl.len() as int implies w[37 + nm.len() as int + la.len() as int + t] == (
    #[trigger] sl[t]) by {
        let u = 37 + nm.len() as int + la.len() as int + t;
        if t == 0 {
            assert(g5[u] == '[');
            assert(g6[u] == g5[u]);
            assert(w[u] == g6[u]);
            assert(sl[t] == '[');
        } else if t < 1 + jn.len() as int {
            assert(g6[u] == jn[t - 1]);
            assert(w[u] == g6[u]);
            assert((seq!['['] + jn)[t] == jn[t - 1]);
            assert(sl[t] == (seq!['['] + jn)[t]);
        } else {
            assert(w[u] == seq![']', '}'][0]);
            assert(sl[t] == ']');
        }
    }
    assert(s.subrange(37 + nm.len() as int + la.len() as int, 37 + nm.len() as int + la.len() as int + sl.len() as int) =~= sl);
    assert(s[39 + nm.len() as int + la.len() as int + jn.len() as int] == '}') by {
        assert(w[g6.len() as int + 1] == seq![']', '}'][1]);
    }
    assert(s.subrange(39 + nm.len() as int + la.len() as int + jn.len() as int, 40 + nm.len() as int + la.len() as int + jn.len() as int)
        =~= seq!['}']);
}

/// Parse a report back from its JSON text.
///
/// The parser accepts exactly the canonical texts the serializer writes,
/// and accepts every one of them whose names hold no quote: a returned
/// report re-serializes to the very input, its names hold no quote, and
/// parsing never fails on the serialization of such a report. Together
/// with serialization being injective (`lemma_serialization_injective`)
/// this gives the round trip: parsing the serialization of a report
/// recovers it field for field.
#[verifier::rlimit(100)]
pub fn parse_report(s: &str) -> (r: Option<RootDomain>)
    ensures
        r matches Some(rep) ==> s@ == spec_report(rep@),
        r matches Some(rep) ==> report_names_ok(rep@),
        (exists|rv: RootDomainView| report_names_ok(rv) && s@ == spec_report(rv)) ==> r is Some,
{
    let ghost ex = exists|rv: RootDomainView| report_names_ok(rv) && s@ == spec_report(rv);
    let ghost rv0: RootDomainView = if ex {
        choose|rv: RootDomainView| report_names_ok(rv) && s@ == spec_report(rv)
    } else {
        RootDomainView { name: Seq::empty(), addresses: Seq::empty(), subdomains: Seq::empty() }
    };
    proof {
        reveal_strlit("{\"name\":\"");
        reveal_strlit("\",\"addresses\":");
        reveal_strlit(",\"subdomains\":");
        reveal_strlit("}");
        assert("{\"name\":\""@ =~= lit_name_open());
        assert("\",\"addresses\":"@ =~= lit_addresses());
        assert(",\"subdomains\":"@ =~= lit_subdomains());
        assert("}"@ =~= seq!['}']);
        if ex {
            lemma_report_parts(s@, rv0);
        }
    }
    let n = s.unicode_len();
    let i1 = match eat_lit(s, 0, "{\"name\":\"") {
        Some(i) => i,
        None => {
            proof {
                if ex {
                    assert(false);
                }
            }
            return None;
        }
    };
    let j = match scan_quote(s, i1) {
        Some(j) => j,
        None => {
            proof {
                if ex {
                    assert(s@[9 + rv0.name.len() as int] == '"');
                    assert(false);
                }
            }
            return None;
        }
    };
    proof {
        if ex {
            assert(s@[9 + rv0.name.len() as int] == '"');
            if j < 9 + rv0.name.len() as int {
                assert(s@[j as int] != '"');
                assert(false);
            }
            if j > 9 + rv0.name.len() as int {
                assert(s@[9 + rv0.name.len() as int] != '"');
                assert(false);
            }
            assert(j == 9 + rv0.name.len() as int);
        }
    }
    let name = s.substring_char(i1, j).to_owned();
    proof {
        assert(name_ok(name@)) by {
            if name@.contains('"') {
                let t = choose|t: int| 0 <= t < name@.len() as int && name@[t] == '"';
                assert(s@[i1 + t] == '"');
                assert(false);
            }
        }
    }
    let i2 = match eat_lit(s, j, "\",\"addresses\":") {
        Some(i) => i,
        None => {
            proof {
                if ex {
                    assert(lit_at(s@, j as int, "\",\"addresses\":"@));
                    assert(false);
                }
            }
            return None;
        }
    };
    let (addresses, i3) = match parse_addresses(s, i2) {
        Some(p) => p,
        None => {
            proof {
                if ex {
                    assert(addresses_at(s@, i2 as int, rv0.addresses));
                    assert(false);
                }
            }
            return None;
        }
    };
    let i4 = match eat_lit(s, i3, ",\"subdomains\":") {
        Some(i) => i,
        None => {
            proof {
                if ex {
                    assert(addresses_at(s@, i2 as int, rv0.addresses));
                    assert(i3 == i2 + spec_addresses(rv0.addresses).len());
                    assert(lit_at(s@, i3 as int, ",\"subdomains\":"@));
                    assert(false);
                }
            }
            return None;
        }
    };
    let (subdomains, i5) = match parse_subdomains(s, i4) {
        Some(p) => p,
        None => {
            proof {
                if ex {
                    assert(sub_list_at(s@, i4 as int, rv0.subdomains));
                    assert(sub_names_ok(rv0.subdomains));
                    assert(false);
                }
            }
            return None;
        }
    };
    let i6 = match eat_lit(s, i5, "}") {
        Some(i) => i,
        None => {
            proof {
                if ex {
                    assert(sub_list_at(s@, i4 as int, rv0.subdomains));
                    assert(sub_names_ok(rv0.subdomains));
                    assert(i5 == i4 + 2 + spec_join(sub_items(rv0.subdomains)).len());
                    assert(lit_at(s@, i5 as int, "}"@));
                    assert(false);
                }
            }
            return None;
        }
    };
    proof {
        if ex {
            assert(lit_at(s@, j as int, "\",\"addresses\":"@));
            assert(i2 == j + 14);
            assert(addresses_at(s@, i2 as int, rv0.addresses));
            assert(i3 == i2 + spec_addresses(rv0.addresses).len());
            assert(lit_at(s@, i3 as int, ",\"subdomains\":"@));
            assert(i4 == i3 + 14);
            assert(sub_list_at(s@, i4 as int, rv0.subdomains));
            assert(sub_names_ok(rv0.subdomains)) by {
                assert forall|k: int| 0 <= k < rv0.subdomains.len() implies name_ok(
                    (#[trigger] rv0.subdomains[k]).name,
                ) by {}
            }
            assert(i5 == i4 + 2 + spec_join(sub_items(rv0.subdomains)).len());
            assert(lit_at(s@, i5 as int, "}"@));
            assert(i6 == i5 + 1);
            assert(i6 == n);
            assert(name@ == rv0.name);
            assert(addresses@ == rv0.addresses);
            assert(parsed_subs(subdomains@) == rv0.subdomains);
        }
    }
    if i6 != n {
        proof {
            if ex {
                assert(false);
            }
        }
        return None;
    }
    let rep = RootDomain { name, addresses, subdomains };
    proof {
        assert(rep@.subdomains =~= parsed_subs(subdomains@));
        assert(report_names_ok(rep@)) by {
            assert(name_ok(rep@.name));
            assert forall|k: int| 0 <= k < rep@.subdomains.len() implies name_ok(
                (#[trigger] rep@.subdomains[k]).name,
            ) by {
                assert(rep@.subdomains[k] == parsed_subs(subdomains@)[k]);
                assert(name_ok(parsed_subs(subdomains@)[k].name));
            }
        }
    }
    let text = report_to_json(&rep);
    let owned = s.to_owned();
    if text.eq(&owned) {
        Some(rep)
    } else {
        proof {
            if ex {
                assert(sub_names_ok(rv0.subdomains));
                assert(name@ == rv0.name);
                assert(addresses@ == rv0.addresses);
                assert(parsed_subs(subdomains@) == rv0.subdomains);
                assert(rep@ =~= rv0);
                assert(text@ == s@);
                assert(false);
            }
        }
        None
    }
}

} // verus!
