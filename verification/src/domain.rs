use vstd::prelude::*;

verus! {

/// A single resolved IPv4 address, held as its four octets.
///
/// The scanner asks the resolver for address records only, and the resolver
/// client extracts exactly the IPv4 answers, so an address is four octets.
#[derive(Clone, Copy, PartialEq, Eq, Structural, Debug)]
pub struct Ipv4(pub u8, pub u8, pub u8, pub u8);

/// One resolved address of a hostname. Immutable once created.
#[derive(Clone, Copy, PartialEq, Eq, Structural, Debug)]
pub struct Address {
    pub ip: Ipv4,
}

/// A discovered subdomain: its fully-qualified name and every address it
/// resolved to. Created once, when a worker first sees a non-empty
/// resolution for the name; never mutated afterwards.
#[derive(Clone, Debug, PartialEq, Eq)]
pub struct Subdomain {
    pub name: String,
    pub addresses: Vec<Address>,
}

/// The mathematical value of a [`Subdomain`].
#[verifier::ext_equal]
pub ghost struct SubdomainView {
    pub name: Seq<char>,
    pub addresses: Seq<Address>,
}

impl SubdomainView {
    /// A subdomain entry is well formed when it carries at least one address:
    /// entries are only ever created from non-empty resolutions.
    pub open spec fn wf(self) -> bool {
        self.addresses.len() > 0
    }
}

impl View for Subdomain {
    type V = SubdomainView;

    open spec fn view(&self) -> SubdomainView {
        SubdomainView { name: self.name@, addresses: self.addresses@ }
    }
}

impl Subdomain {
    /// Build the entry for a hostname that resolved to `addresses`.
    pub fn new(name: String, addresses: Vec<Address>) -> (s: Subdomain)
        requires
            addresses@.len() > 0,
        ensures
            s@ == (SubdomainView { name: name@, addresses: addresses@ }),
            s@.wf(),
    {
        Subdomain { name, addresses }
    }
}

/// The shared report: the root domain, its own addresses, and every
/// subdomain discovered during the run.
#[derive(Clone, Debug, PartialEq, Eq)]
pub struct RootDomain {
    pub name: String,
    pub addresses: Vec<Address>,
    pub subdomains: Vec<Subdomain>,
}

/// The mathematical value of a [`RootDomain`].
#[verifier::ext_equal]
pub ghost struct RootDomainView {
    pub name: Seq<char>,
    pub addresses: Seq<Address>,
    pub subdomains: Seq<SubdomainView>,
}

impl RootDomainView {
    /// Every subdomain entry of the report carries at least one address.
    pub open spec fn wf(self) -> bool {
        forall|i: int| 0 <= i < self.subdomains.len() ==> (#[trigger] self.subdomains[i]).wf()
    }
}

impl View for RootDomain {
    type V = RootDomainView;

    open spec fn view(&self) -> RootDomainView {
        RootDomainView {
            name: self.name@,
            addresses: self.addresses@,
            subdomains: self.subdomains@.map_values(|s: Subdomain| s@),
        }
    }
}

impl RootDomain {
    /// Create the report before any worker starts: the fixed root name, the
    /// root's own addresses (possibly none), and no subdomains yet.
    pub fn new(name: String, addresses: Vec<Address>) -> (r: RootDomain)
        ensures
            r@ == (RootDomainView { name: name@, addresses: addresses@, subdomains: Seq::empty() }),
            r@.wf(),
    {
        let r = RootDomain { name, addresses, subdomains: Vec::new() };
        proof {
            assert(r@.subdomains =~= Seq::<SubdomainView>::empty());
            assert(r@ =~= (RootDomainView {
                name: r.name@,
                addresses: r.addresses@,
                subdomains: Seq::empty(),
            }));
        }
        r
    }
}

} // verus!
