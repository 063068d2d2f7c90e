use vstd::prelude::*;
use crate::domain::{Address, Ipv4, RootDomainView, SubdomainView};
use crate::json::{
    addr_items, digit_char, is_digit, lit_addresses, lit_ip_open, lit_name_open, lit_subdomains,
    name_ok, report_names_ok, spec_address, spec_addresses, spec_dec, spec_ip, spec_join,
    spec_report, spec_subdomain, sub_items,
};

verus! {

proof fn lemma_strip_prefix(p: Seq<char>, a: Seq<char>, b: Seq<char>)
    requires
        p + a == p + b,
    ensures
        a == b,
{
    assert(a =~= (p + a).skip(p.len() as int));
    assert(b =~= (p + b).skip(p.len() as int));
}

proof fn lemma_strip_suffix(a: Seq<char>, b: Seq<char>, s: Seq<char>)
    requires
        a + s == b + s,
    ensures
        a == b,
{
    assert((a + s).len() == a.len() + s.len());
    assert((b + s).len() == b.len() + s.len());
    assert(a.len() == b.len());
    assert(a =~= (a + s).take(a.len() as int));
    assert(b =~= (b + s).take(b.len() as int));
}

proof fn lemma_no_char_concat(x: Seq<char>, y: Seq<char>, t: char)
    requires
        !x.contains(t),
        !y.contains(t),
    ensures
        !(x + y).contains(t),
{
    assert forall|i: int| 0 <= i < (x + y).len() implies (x + y)[i] != t by {
        if i < x.len() {
            assert(!x.contains(t));
            assert(x[i] != t);
        } else {
            assert(y[i - x.len()] != t);
        }
    }
}

/// Text before a terminator that occurs in neither part determines where
/// the terminator stands: equal texts split equally around it.
proof fn lemma_unique_terminator(a: Seq<char>, b: Seq<char>, x: Seq<char>, y: Seq<char>, t: char)
    requires
        !a.contains(t),
        !b.contains(t),
        a + seq![t] + x == b + seq![t] + y,
    ensures
        a == b,
        x == y,
    decreases a.len(),
{
    let s = a + seq![t] + x;
    if a.len() == 0 {
        if b.len() > 0 {
            assert(s[0] == t);
            assert((b + seq![t] + y)[0] == b[0]);
            assert(b.contains(b[0]));
            assert(false);
        }
        assert(a =~= b);
        assert(seq![t] + x =~= s);
        assert(seq![t] + y =~= b + seq![t] + y);
        lemma_strip_prefix(seq![t], x, y);
    } else {
        if b.len() == 0 {
            assert((b + seq![t] + y)[0] == t);
            assert(s[0] == a[0]);
            assert(a.contains(a[0]));
            assert(false);
        }
        assert(a[0] == s[0] && b[0] == s[0]);
        let a1 = a.drop_first();
        let b1 = b.drop_first();
        assert forall|i: int| 0 <= i < a1.len() implies a1[i] != t by {
            assert(a[i + 1] != t);
        }
        assert(!a1.contains(t));
        assert forall|i: int| 0 <= i < b1.len() implies b1[i] != t by {
            assert(b[i + 1] != t);
        }
        assert(!b1.contains(t));
        assert(a1 + seq![t] + x =~= s.skip(1));
        assert(b1 + seq![t] + y =~= (b + seq![t] + y).skip(1));
        lemma_unique_terminator(a1, b1, x, y, t);
        assert(a.len() == b.len());
        assert forall|i: int| 0 <= i < a.len() implies a[i] == b[i] by {
            if i > 0 {
                assert(a1[i - 1] == b1[i - 1]);
            }
        }
        assert(a =~= b);
    }
}

/// A decimal rendering is one or more digit characters.
pub proof fn lemma_dec_is_digits(n: nat)
    ensures
        spec_dec(n).len() >= 1,
        forall|i: int| 0 <= i < spec_dec(n).len() ==> is_digit(#[trigger] spec_dec(n)[i]),
    decreases n,
{
    if n >= 10 {
        lemma_dec_is_digits(n / 10);
    }
}

/// No decimal rendering contains a non-digit character.
proof fn lemma_dec_no_char(n: nat, t: char)
    requires
        !is_digit(t),
    ensures
        !spec_dec(n).contains(t),
{
    lemma_dec_is_digits(n);
    assert forall|i: int| 0 <= i < spec_dec(n).len() implies spec_dec(n)[i] != t by {
        assert(is_digit(spec_dec(n)[i]));
    }
}

/// Equal decimal renderings come from the same number.
proof fn lemma_dec_injective(n1: nat, n2: nat)
    requires
        spec_dec(n1) == spec_dec(n2),
    ensures
        n1 == n2,
    decreases n1,
{
    lemma_dec_is_digits(n1);
    lemma_dec_is_digits(n2);
    if n1 < 10 && n2 < 10 {
        assert(spec_dec(n1)[0] == digit_char(n1));
        assert(spec_dec(n2)[0] == digit_char(n2));
    } else if n1 < 10 {
        assert(spec_dec(n1).len() == 1);
        assert(spec_dec(n2).len() == spec_dec(n2 / 10).len() + 1);
        assert(false);
    } else if n2 < 10 {
        assert(spec_dec(n2).len() == 1);
        assert(spec_dec(n1).len() == spec_dec(n1 / 10).len() + 1);
        assert(false);
    } else {
        assert(spec_dec(n1).last() == digit_char(n1 % 10));
        assert(spec_dec(n2).last() == digit_char(n2 % 10));
        assert(n1 % 10 == n2 % 10);
        assert(spec_dec(n1).drop_last() =~= spec_dec(n1 / 10));
        assert(spec_dec(n2).drop_last() =~= spec_dec(n2 / 10));
        lemma_dec_injective(n1 / 10, n2 / 10);
        vstd::arithmetic::div_mod::lemma_fundamental_div_mod(n1 as int, 10);
        vstd::arithmetic::div_mod::lemma_fundamental_div_mod(n2 as int, 10);
    }
}

/// A decimal rendering followed by a non-digit is read off unambiguously.
proof fn lemma_dec_prefix(n1: nat, n2: nat, x: Seq<char>, y: Seq<char>)
    requires
        spec_dec(n1) + x == spec_dec(n2) + y,
        x.len() == 0 || !is_digit(x[0]),
        y.len() == 0 || !is_digit(y[0]),
    ensures
        n1 == n2,
        x == y,
{
    let a = spec_dec(n1);
    let b = spec_dec(n2);
    lemma_dec_is_digits(n1);
    lemma_dec_is_digits(n2);
    if a.len() < b.len() {
        assert((a + x).len() == (b + y).len());
        assert(x.len() > 0);
        assert(x[0] == (a + x)[a.len() as int]);
        assert((b + y)[a.len() as int] == b[a.len() as int]);
        assert(is_digit(b[a.len() as int]));
        assert(false);
    }
    if b.len() < a.len() {
        assert((a + x).len() == (b + y).len());
        assert(y.len() > 0);
        assert(y[0] == (b + y)[b.len() as int]);
        assert((a + x)[b.len() as int] == a[b.len() as int]);
        assert(is_digit(a[b.len() as int]));
        assert(false);
    }
    assert forall|i: int| 0 <= i < a.len() implies a[i] == b[i] by {
        assert((a + x)[i] == (b + y)[i]);
    }
    assert(a =~= b);
    lemma_dec_injective(n1, n2);
    lemma_strip_prefix(a, x, y);
}

/// One decimal octet before a dot is read off unambiguously.
proof fn lemma_dec_dot_strip(m1: nat, m2: nat, x: Seq<char>, y: Seq<char>)
    requires
        spec_dec(m1) + seq!['.'] + x == spec_dec(m2) + seq!['.'] + y,
    ensures
        m1 == m2,
        x == y,
{
    assert(spec_dec(m1) + (seq!['.'] + x) =~= spec_dec(m1) + seq!['.'] + x);
    assert(spec_dec(m2) + (seq!['.'] + y) =~= spec_dec(m2) + seq!['.'] + y);
    assert(!is_digit((seq!['.'] + x)[0]));
    assert(!is_digit((seq!['.'] + y)[0]));
    lemma_dec_prefix(m1, m2, seq!['.'] + x, seq!['.'] + y);
    lemma_strip_prefix(seq!['.'], x, y);
}

/// Concatenation groups freely around the three dots of a quad.
proof fn lemma_ip_reassoc(d0: Seq<char>, d1: Seq<char>, d2: Seq<char>, d3: Seq<char>, x: Seq<char>)
    ensures
        (d0 + seq!['.'] + d1 + seq!['.'] + d2 + seq!['.'] + d3) + x == d0 + seq!['.'] + (d1
            + seq!['.'] + (d2 + seq!['.'] + (d3 + x))),
{
    assert((d0 + seq!['.'] + d1 + seq!['.'] + d2 + seq!['.'] + d3) + x =~= d0 + seq!['.'] + (d1
        + seq!['.'] + (d2 + seq!['.'] + (d3 + x))));
}

/// A dotted quad followed by a non-digit is read off unambiguously.
proof fn lemma_ip_prefix(ip1: Ipv4, ip2: Ipv4, x: Seq<char>, y: Seq<char>)
    requires
        spec_ip(ip1) + x == spec_ip(ip2) + y,
        x.len() == 0 || !is_digit(x[0]),
        y.len() == 0 || !is_digit(y[0]),
    ensures
        ip1 == ip2,
        x == y,
{
    let x3 = spec_dec(ip1.3 as nat) + x;
    let y3 = spec_dec(ip2.3 as nat) + y;
    let x2 = spec_dec(ip1.2 as nat) + seq!['.'] + x3;
    let y2 = spec_dec(ip2.2 as nat) + seq!['.'] + y3;
    let x1 = spec_dec(ip1.1 as nat) + seq!['.'] + x2;
    let y1 = spec_dec(ip2.1 as nat) + seq!['.'] + y2;
    lemma_ip_reassoc(
        spec_dec(ip1.0 as nat),
        spec_dec(ip1.1 as nat),
        spec_dec(ip1.2 as nat),
        spec_dec(ip1.3 as nat),
        x,
    );
    lemma_ip_reassoc(
        spec_dec(ip2.0 as nat),
        spec_dec(ip2.1 as nat),
        spec_dec(ip2.2 as nat),
        spec_dec(ip2.3 as nat),
        y,
    );
    assert(spec_dec(ip1.0 as nat) + seq!['.'] + x1 == spec_ip(ip1) + x);
    assert(spec_dec(ip2.0 as nat) + seq!['.'] + y1 == spec_ip(ip2) + y);
    lemma_dec_dot_strip(ip1.0 as nat, ip2.0 as nat, x1, y1);
    lemma_dec_dot_strip(ip1.1 as nat, ip2.1 as nat, x2, y2);
    lemma_dec_dot_strip(ip1.2 as nat, ip2.2 as nat, x3, y3);
    lemma_dec_prefix(ip1.3 as nat, ip2.3 as nat, x, y);
}

/// One address object followed by anything is read off unambiguously.
proof fn lemma_address_prefix(a1: Address, a2: Address, x: Seq<char>, y: Seq<char>)
    requires
        spec_address(a1) + x == spec_address(a2) + y,
    ensures
        a1 == a2,
        x == y,
{
    let close = seq!['"', '}'];
    assert(lit_ip_open() + (spec_ip(a1.ip) + close + x) =~= spec_address(a1) + x);
    assert(lit_ip_open() + (spec_ip(a2.ip) + close + y) =~= spec_address(a2) + y);
    lemma_strip_prefix(lit_ip_open(), spec_ip(a1.ip) + close + x, spec_ip(a2.ip) + close + y);
    assert(spec_ip(a1.ip) + (close + x) =~= spec_ip(a1.ip) + close + x);
    assert(spec_ip(a2.ip) + (close + y) =~= spec_ip(a2.ip) + close + y);
    assert(!is_digit((close + x)[0]));
    assert(!is_digit((close + y)[0]));
    lemma_ip_prefix(a1.ip, a2.ip, close + x, close + y);
    lemma_strip_prefix(close, x, y);
}

/// No address object text contains `]`.
proof fn lemma_address_no_rbracket(a: Address)
    ensures
        !spec_address(a).contains(']'),
{
    lemma_dec_no_char(a.ip.0 as nat, ']');
    lemma_dec_no_char(a.ip.1 as nat, ']');
    lemma_dec_no_char(a.ip.2 as nat, ']');
    lemma_dec_no_char(a.ip.3 as nat, ']');
    assert forall|i: int| 0 <= i < lit_ip_open().len() implies lit_ip_open()[i] != ']' by {}
    assert(!lit_ip_open().contains(']')) by {
        if lit_ip_open().contains(']') {
            let i = choose|i: int| 0 <= i < lit_ip_open().len() && lit_ip_open()[i] == ']';
            assert(false);
        }
    }
    assert(!seq!['.'].contains(']')) by {
        if seq!['.'].contains(']') {
            let i = choose|i: int| 0 <= i < seq!['.'].len() && seq!['.'][i] == ']';
            assert(false);
        }
    }
    assert(!seq!['"', '}'].contains(']')) by {
        if seq!['"', '}'].contains(']') {
            let i = choose|i: int|
                0 <= i < seq!['"', '}'].len() && seq!['"', '}'][i] == ']';
            assert(false);
        }
    }
    lemma_no_char_concat(spec_dec(a.ip.0 as nat), seq!['.'], ']');
    lemma_no_char_concat(spec_dec(a.ip.0 as nat) + seq!['.'], spec_dec(a.ip.1 as nat), ']');
    lemma_no_char_concat(
        spec_dec(a.ip.0 as nat) + seq!['.'] + spec_dec(a.ip.1 as nat),
        seq!['.'],
        ']',
    );
    lemma_no_char_concat(
        spec_dec(a.ip.0 as nat) + seq!['.'] + spec_dec(a.ip.1 as nat) + seq!['.'],
        spec_dec(a.ip.2 as nat),
        ']',
    );
    lemma_no_char_concat(
        spec_dec(a.ip.0 as nat) + seq!['.'] + spec_dec(a.ip.1 as nat) + seq!['.'] + spec_dec(
            a.ip.2 as nat,
        ),
        seq!['.'],
        ']',
    );
    lemma_no_char_concat(
        spec_dec(a.ip.0 as nat) + seq!['.'] + spec_dec(a.ip.1 as nat) + seq!['.'] + spec_dec(
            a.ip.2 as nat,
        ) + seq!['.'],
        spec_dec(a.ip.3 as nat),
        ']',
    );
    assert(spec_ip(a.ip) =~= spec_dec(a.ip.0 as nat) + seq!['.'] + spec_dec(a.ip.1 as nat)
        + seq!['.'] + spec_dec(a.ip.2 as nat) + seq!['.'] + spec_dec(a.ip.3 as nat));
    lemma_no_char_concat(lit_ip_open(), spec_ip(a.ip), ']');
    lemma_no_char_concat(lit_ip_open() + spec_ip(a.ip), seq!['"', '}'], ']');
    assert(spec_address(a) =~= lit_ip_open() + spec_ip(a.ip) + seq!['"', '}']);
}

/// No joined list of address objects contains `]`.
proof fn lemma_addr_join_no_rbracket(addrs: Seq<Address>)
    ensures
        !spec_join(addr_items(addrs)).contains(']'),
    decreases addrs.len(),
{
    let items = addr_items(addrs);
    if addrs.len() == 0 {
        assert(!spec_join(items).contains(']'));
    } else if addrs.len() == 1 {
        assert(spec_join(items) == items[0]);
        assert(items[0] == spec_address(addrs[0]));
        lemma_address_no_rbracket(addrs[0]);
    } else {
        lemma_addr_join_no_rbracket(addrs.drop_last());
        assert(items.drop_last() =~= addr_items(addrs.drop_last()));
        assert(items.last() == spec_address(addrs.last()));
        lemma_address_no_rbracket(addrs.last());
        assert(!seq![','].contains(']')) by {
            if seq![','].contains(']') {
                let i = choose|i: int| 0 <= i < seq![','].len() && seq![','][i] == ']';
                assert(false);
            }
        }
        lemma_no_char_concat(spec_join(items.drop_last()), seq![','], ']');
        lemma_no_char_concat(spec_join(items.drop_last()) + seq![','], items.last(), ']');
        assert(spec_join(items) == spec_join(items.drop_last()) + seq![','] + items.last());
    }
}

/// A joined list unfolds from the front as well.
pub proof fn lemma_join_front(items: Seq<Seq<char>>)
    requires
        items.len() >= 2,
    ensures
        spec_join(items) == items[0] + seq![','] + spec_join(items.drop_first()),
    decreases items.len(),
{
    if items.len() == 2 {
        assert(items.drop_last() =~= seq![items[0]]);
        assert(spec_join(items.drop_last()) == items[0]);
        assert(items.drop_first() =~= seq![items[1]]);
        assert(spec_join(items.drop_first()) == items[1]);
    } else {
        lemma_join_front(items.drop_last());
        assert(items.drop_last().drop_first() =~= items.drop_first().drop_last());
        assert(items.drop_last()[0] == items[0]);
        assert(items.drop_first().last() == items.last());
        assert(spec_join(items.drop_first()) == spec_join(items.drop_first().drop_last())
            + seq![','] + items.drop_first().last());
        assert((items[0] + seq![','] + spec_join(items.drop_last().drop_first())) + seq![',']
            + items.last() =~= items[0] + seq![','] + (spec_join(items.drop_first().drop_last())
            + seq![','] + items.drop_first().last()));
    }
}

/// Equal joined address lists come from the same addresses.
proof fn lemma_addr_items_injective(s1: Seq<Address>, s2: Seq<Address>)
    requires
        spec_join(addr_items(s1)) == spec_join(addr_items(s2)),
    ensures
        s1 == s2,
    decreases s1.len(),
{
    let i1 = addr_items(s1);
    let i2 = addr_items(s2);
    if s1.len() == 0 {
        if s2.len() == 1 {
            assert(spec_join(i2) == i2[0]);
            assert(i2[0] == spec_address(s2[0]));
            assert(spec_join(i2).len() >= lit_ip_open().len());
            assert(false);
        } else if s2.len() >= 2 {
            lemma_join_front(i2);
            assert(i2[0] == spec_address(s2[0]));
            assert(spec_join(i2).len() >= lit_ip_open().len());
            assert(false);
        }
        assert(s1 =~= s2);
    } else if s2.len() == 0 {
        if s1.len() == 1 {
            assert(spec_join(i1) == i1[0]);
            assert(i1[0] == spec_address(s1[0]));
            assert(spec_join(i1).len() >= lit_ip_open().len());
            assert(false);
        } else {
            lemma_join_front(i1);
            assert(i1[0] == spec_address(s1[0]));
            assert(spec_join(i1).len() >= lit_ip_open().len());
            assert(false);
        }
    } else if s1.len() == 1 && s2.len() == 1 {
        assert(spec_join(i1) == i1[0] && spec_join(i2) == i2[0]);
        assert(spec_address(s1[0]) + Seq::<char>::empty() =~= i1[0]);
        assert(spec_address(s2[0]) + Seq::<char>::empty() =~= i2[0]);
        lemma_address_prefix(s1[0], s2[0], Seq::empty(), Seq::empty());
        assert(s1 =~= s2);
    } else if s1.len() == 1 {
        lemma_join_front(i2);
        assert(spec_address(s1[0]) + Seq::<char>::empty() =~= i1[0]);
        assert(spec_address(s2[0]) + (seq![','] + spec_join(i2.drop_first())) =~= spec_join(i2));
        lemma_address_prefix(
            s1[0],
            s2[0],
            Seq::empty(),
            seq![','] + spec_join(i2.drop_first()),
        );
        assert(false);
    } else if s2.len() == 1 {
        lemma_join_front(i1);
        assert(spec_address(s2[0]) + Seq::<char>::empty() =~= i2[0]);
        assert(spec_address(s1[0]) + (seq![','] + spec_join(i1.drop_first())) =~= spec_join(i1));
        lemma_address_prefix(
            s1[0],
            s2[0],
            seq![','] + spec_join(i1.drop_first()),
            Seq::empty(),
        );
        assert(false);
    } else {
        lemma_join_front(i1);
        lemma_join_front(i2);
        assert(spec_address(s1[0]) + (seq![','] + spec_join(i1.drop_first())) =~= spec_join(i1));
        assert(spec_address(s2[0]) + (seq![','] + spec_join(i2.drop_first())) =~= spec_join(i2));
        lemma_address_prefix(
            s1[0],
            s2[0],
            seq![','] + spec_join(i1.drop_first()),
            seq![','] + spec_join(i2.drop_first()),
        );
        lemma_strip_prefix(seq![','], spec_join(i1.drop_first()), spec_join(i2.drop_first()));
        assert(i1.drop_first() =~= addr_items(s1.drop_first()));
        assert(i2.drop_first() =~= addr_items(s2.drop_first()));
        lemma_addr_items_injective(s1.drop_first(), s2.drop_first());
        assert(s1.len() == s2.len());
        assert forall|i: int| 0 <= i < s1.len() implies s1[i] == s2[i] by {
            if i > 0 {
                assert(s1.drop_first()[i - 1] == s2.drop_first()[i - 1]);
            }
        }
        assert(s1 =~= s2);
    }
}

/// One subdomain object followed by anything is read off unambiguously.
proof fn lemma_subdomain_prefix(v1: SubdomainView, v2: SubdomainView, x: Seq<char>, y: Seq<char>)
    requires
        name_ok(v1.name),
        name_ok(v2.name),
        spec_subdomain(v1) + x == spec_subdomain(v2) + y,
    ensures
        v1 == v2,
        x == y,
{
    let r13 = seq![',', '"', 'a', 'd', 'd', 'r', 'e', 's', 's', 'e', 's', '"', ':'];
    assert(lit_addresses() =~= seq!['"'] + r13);
    let t1 = r13 + spec_addresses(v1.addresses) + seq!['}'] + x;
    let t2 = r13 + spec_addresses(v2.addresses) + seq!['}'] + y;
    assert(lit_name_open() + (v1.name + seq!['"'] + t1) =~= spec_subdomain(v1) + x);
    assert(lit_name_open() + (v2.name + seq!['"'] + t2) =~= spec_subdomain(v2) + y);
    lemma_strip_prefix(lit_name_open(), v1.name + seq!['"'] + t1, v2.name + seq!['"'] + t2);
    lemma_unique_terminator(v1.name, v2.name, t1, t2, '"');
    let u1 = spec_join(addr_items(v1.addresses)) + seq![']'] + (seq!['}'] + x);
    let u2 = spec_join(addr_items(v2.addresses)) + seq![']'] + (seq!['}'] + y);
    assert(r13 + (seq!['['] + u1) =~= t1);
    assert(r13 + (seq!['['] + u2) =~= t2);
    lemma_strip_prefix(r13, seq!['['] + u1, seq!['['] + u2);
    lemma_strip_prefix(seq!['['], u1, u2);
    lemma_addr_join_no_rbracket(v1.addresses);
    lemma_addr_join_no_rbracket(v2.addresses);
    lemma_unique_terminator(
        spec_join(addr_items(v1.addresses)),
        spec_join(addr_items(v2.addresses)),
        seq!['}'] + x,
        seq!['}'] + y,
        ']',
    );
    lemma_addr_items_injective(v1.addresses, v2.addresses);
    lemma_strip_prefix(seq!['}'], x, y);
    assert(v1 =~= v2);
}

/// Equal joined subdomain lists with unambiguous names come from the same
/// subdomains.
proof fn lemma_sub_items_injective(s1: Seq<SubdomainView>, s2: Seq<SubdomainView>)
    requires
        forall|k: int| 0 <= k < s1.len() ==> name_ok((#[trigger] s1[k]).name),
        forall|k: int| 0 <= k < s2.len() ==> name_ok((#[trigger] s2[k]).name),
        spec_join(sub_items(s1)) == spec_join(sub_items(s2)),
    ensures
        s1 == s2,
    decreases s1.len(),
{
    let i1 = sub_items(s1);
    let i2 = sub_items(s2);
    if s1.len() == 0 {
        if s2.len() == 1 {
            assert(spec_join(i2) == i2[0]);
            assert(i2[0] == spec_subdomain(s2[0]));
            assert(spec_join(i2).len() >= lit_name_open().len());
            assert(false);
        } else if s2.len() >= 2 {
            lemma_join_front(i2);
            assert(i2[0] == spec_subdomain(s2[0]));
            assert(spec_join(i2).len() >= lit_name_open().len());
            assert(false);
        }
        assert(s1 =~= s2);
    } else if s2.len() == 0 {
        if s1.len() == 1 {
            assert(spec_join(i1) == i1[0]);
            assert(i1[0] == spec_subdomain(s1[0]));
            assert(spec_join(i1).len() >= lit_name_open().len());
            assert(false);
        } else {
            lemma_join_front(i1);
            assert(i1[0] == spec_subdomain(s1[0]));
            assert(spec_join(i1).len() >= lit_name_open().len());
            assert(false);
        }
    } else if s1.len() == 1 && s2.len() == 1 {
        assert(spec_join(i1) == i1[0] && spec_join(i2) == i2[0]);
        assert(spec_subdomain(s1[0]) + Seq::<char>::empty() =~= i1[0]);
        assert(spec_subdomain(s2[0]) + Seq::<char>::empty() =~= i2[0]);
        lemma_subdomain_prefix(s1[0], s2[0], Seq::empty(), Seq::empty());
        assert(s1 =~= s2);
    } else if s1.len() == 1 {
        lemma_join_front(i2);
        assert(spec_subdomain(s1[0]) + Seq::<char>::empty() =~= i1[0]);
        assert(spec_subdomain(s2[0]) + (seq![','] + spec_join(i2.drop_first())) =~= spec_join(i2));
        lemma_subdomain_prefix(
            s1[0],
            s2[0],
            Seq::empty(),
            seq![','] + spec_join(i2.drop_first()),
        );
        assert(false);
    } else if s2.len() == 1 {
        lemma_join_front(i1);
        assert(spec_subdomain(s2[0]) + Seq::<char>::empty() =~= i2[0]);
        assert(spec_subdomain(s1[0]) + (seq![','] + spec_join(i1.drop_first())) =~= spec_join(i1));
        lemma_subdomain_prefix(
            s1[0],
            s2[0],
            seq![','] + spec_join(i1.drop_first()),
            Seq::empty(),
        );
        assert(false);
    } else {
        lemma_join_front(i1);
        lemma_join_front(i2);
        assert(spec_subdomain(s1[0]) + (seq![','] + spec_join(i1.drop_first())) =~= spec_join(i1));
        assert(spec_subdomain(s2[0]) + (seq![','] + spec_join(i2.drop_first())) =~= spec_join(i2));
        lemma_subdomain_prefix(
            s1[0],
            s2[0],
            seq![','] + spec_join(i1.drop_first()),
            seq![','] + spec_join(i2.drop_first()),
        );
        lemma_strip_prefix(seq![','], spec_join(i1.drop_first()), spec_join(i2.drop_first()));
        assert(i1.drop_first() =~= sub_items(s1.drop_first()));
        assert(i2.drop_first() =~= sub_items(s2.drop_first()));
        assert forall|k: int| 0 <= k < s1.drop_first().len() implies name_ok(
            (#[trigger] s1.drop_first()[k]).name,
        ) by {
            assert(s1.drop_first()[k] == s1[k + 1]);
        }
        assert forall|k: int| 0 <= k < s2.drop_first().len() implies name_ok(
            (#[trigger] s2.drop_first()[k]).name,
        ) by {
            assert(s2.drop_first()[k] == s2[k + 1]);
        }
        lemma_sub_items_injective(s1.drop_first(), s2.drop_first());
        assert(s1.len() == s2.len());
        assert forall|i: int| 0 <= i < s1.len() implies s1[i] == s2[i] by {
            if i > 0 {
                assert(s1.drop_first()[i - 1] == s2.drop_first()[i - 1]);
            }
        }
        assert(s1 =~= s2);
    }
}

/// Serialization is faithful: two reports whose names hold no quote and
/// whose JSON texts agree are the same report, field for field. This is
/// the round-trip law: together with `parse_report`'s contract — a parse
/// only succeeds on the exact serialization of what it returns — parsing
/// the serialized report recovers every field.
#[verifier::rlimit(100)]
pub proof fn lemma_serialization_injective(r1: RootDomainView, r2: RootDomainView)
    requires
        report_names_ok(r1),
        report_names_ok(r2),
        spec_report(r1) == spec_report(r2),
    ensures
        r1 == r2,
{
    let r13 = seq![',', '"', 'a', 'd', 'd', 'r', 'e', 's', 's', 'e', 's', '"', ':'];
    assert(lit_addresses() =~= seq!['"'] + r13);
    let m1 = lit_subdomains() + seq!['['] + spec_join(sub_items(r1.subdomains)) + seq![']', '}'];
    let m2 = lit_subdomains() + seq!['['] + spec_join(sub_items(r2.subdomains)) + seq![']', '}'];
    let t1 = r13 + spec_addresses(r1.addresses) + m1;
    let t2 = r13 + spec_addresses(r2.addresses) + m2;
    assert(lit_name_open() + (r1.name + seq!['"'] + t1) =~= spec_report(r1));
    assert(lit_name_open() + (r2.name + seq!['"'] + t2) =~= spec_report(r2));
    lemma_strip_prefix(lit_name_open(), r1.name + seq!['"'] + t1, r2.name + seq!['"'] + t2);
    lemma_unique_terminator(r1.name, r2.name, t1, t2, '"');
    let u1 = spec_join(addr_items(r1.addresses)) + seq![']'] + m1;
    let u2 = spec_join(addr_items(r2.addresses)) + seq![']'] + m2;
    assert(r13 + (seq!['['] + u1) =~= t1);
    assert(r13 + (seq!['['] + u2) =~= t2);
    lemma_strip_prefix(r13, seq!['['] + u1, seq!['['] + u2);
    lemma_strip_prefix(seq!['['], u1, u2);
    lemma_addr_join_no_rbracket(r1.addresses);
    lemma_addr_join_no_rbracket(r2.addresses);
    lemma_unique_terminator(
        spec_join(addr_items(r1.addresses)),
        spec_join(addr_items(r2.addresses)),
        m1,
        m2,
        ']',
    );
    lemma_addr_items_injective(r1.addresses, r2.addresses);
    let w1 = spec_join(sub_items(r1.subdomains));
    let w2 = spec_join(sub_items(r2.subdomains));
    assert((lit_subdomains() + seq!['[']) + (w1 + seq![']', '}']) =~= m1);
    assert((lit_subdomains() + seq!['[']) + (w2 + seq![']', '}']) =~= m2);
    lemma_strip_prefix(lit_subdomains() + seq!['['], w1 + seq![']', '}'], w2 + seq![']', '}']);
    lemma_strip_suffix(w1, w2, seq![']', '}']);
    lemma_sub_items_injective(r1.subdomains, r2.subdomains);
    assert(r1 =~= r2);
}

} // verus!
