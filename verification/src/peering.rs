//! The nodes that we are told to link to, and the addresses on which links are accepted.
use vstd::prelude::*;
use vstd::string::StringExecFns;
use crate::bytes::{
    append, append_be, be_bytes, bytes_less, lemma_be_len, lemma_lex_irreflexive, lemma_lex_total,
    lemma_lex_transitive, lex_less,
};
use crate::nets::Ip;
use crate::texts::text_is;
use crate::uris::{
    options_of, parse_link_options, parse_uri, text_view, uri_of, LinkOptions, OptionError,
    OptionsView,
};

verus! {

/// A node that we are told to link to, and what went wrong last.
pub struct PeerSlot {
    pub uri: String,
    pub error: Option<String>,
}

/// The nodes that we are told to link to, and the resolved address of each that has one.
pub struct PeerBook {
    pub peers: Vec<PeerSlot>,
    pub addrs: Vec<(String, String)>,
}

/// The view of the book.
#[verifier::ext_equal]
pub struct BookView {
    pub peers: Seq<(Seq<char>, Option<Seq<char>>)>,
    pub addrs: Seq<(Seq<char>, Seq<char>)>,
}

impl View for PeerBook {
    type V = BookView;

    open spec fn view(&self) -> BookView {
        BookView {
            peers: self.peers@.map_values(|p: PeerSlot| (p.uri@, text_view(p.error))),
            addrs: self.addrs@.map_values(|a: (String, String)| (a.0@, a.1@)),
        }
    }
}

/// Why we do not link to a node, or do not accept links on an address.
#[derive(Clone, Copy, Debug, PartialEq, Eq, Structural)]
pub enum PeeringError {
    /// We are told to already.
    Exists,
    /// It is no address.
    Uri,
    /// The scheme is neither `tcp` nor `tls`.
    Scheme,
    /// There is no host in the address.
    Host,
    /// There is no port in the address.
    Port,
    /// Another node of the book has the resolved address; it is the one at that place.
    SameAddress(usize),
    /// An option is wrong.
    Options(OptionError),
    /// We were not told to.
    NotFound,
}

/// Whether the book has a node.
pub open spec fn knows(b: BookView, uri: Seq<char>) -> bool {
    exists|i: int| 0 <= i < b.peers.len() && (#[trigger] b.peers[i]).0 == uri
}

/// No node is in the book twice, and every resolved address belongs to a node of the book.
pub open spec fn book_wf(b: BookView) -> bool {
    &&& forall|i: int, j: int|
        0 <= i < j < b.peers.len() ==> (#[trigger] b.peers[i]).0 != (#[trigger] b.peers[j]).0
    &&& forall|i: int| 0 <= i < b.addrs.len() ==> knows(b, (#[trigger] b.addrs[i]).1)
}

/// Whether TLS is used: none of the other schemes is supported.
pub open spec fn uses_tls(scheme: Seq<char>) -> Option<bool> {
    if scheme == "tcp"@ {
        Some(false)
    } else if scheme == "tls"@ {
        Some(true)
    } else {
        None
    }
}

/// Where to connect to.
#[verifier::ext_equal]
pub struct TargetView {
    pub host: Seq<char>,
    pub port: u16,
    pub tls: bool,
}

/// Where to connect to.
#[derive(Debug)]
pub struct Target {
    pub host: String,
    pub port: u16,
    pub tls: bool,
}

impl View for Target {
    type V = TargetView;

    open spec fn view(&self) -> TargetView {
        TargetView { host: self.host@, port: self.port, tls: self.tls }
    }
}

/// Where to connect to for a node that is not in the book.
pub open spec fn target_of(b: BookView, uri: Seq<char>) -> Result<TargetView, PeeringError> {
    if knows(b, uri) {
        Err(PeeringError::Exists)
    } else {
        match uri_of(uri) {
            None => Err(PeeringError::Uri),
            Some(u) => match uses_tls(u.scheme) {
                None => Err(PeeringError::Scheme),
                Some(tls) => match (u.host, u.port) {
                    (None, _) => Err(PeeringError::Host),
                    (_, None) => Err(PeeringError::Port),
                    (Some(host), Some(port)) => Ok(TargetView { host, port, tls }),
                },
            },
        }
    }
}

/// The place of the first resolved address of the book that is `addr`, or the number of them.
pub open spec fn addr_at(addrs: Seq<(Seq<char>, Seq<char>)>, addr: Seq<char>) -> int {
    crate::seqs::first_index(addrs, |a: (Seq<char>, Seq<char>)| a.0 == addr)
}

/// The place in the book of the first of the addresses that is there.
pub open spec fn clash(addrs: Seq<(Seq<char>, Seq<char>)>, resolved: Seq<Seq<char>>) -> Option<int>
    decreases resolved.len(),
{
    if resolved.len() == 0 {
        None
    } else {
        match clash(addrs, resolved.drop_last()) {
            Some(i) => Some(i),
            None => {
                let at = addr_at(addrs, resolved.last());
                if at < addrs.len() {
                    Some(at)
                } else {
                    None
                }
            },
        }
    }
}

/// The book with a node entered. Where its name was resolved, none of its addresses may be that
/// of another node, and the first is kept.
pub open spec fn entered(b: BookView, uri: Seq<char>, resolved: Option<Seq<Seq<char>>>) -> BookView {
    BookView {
        peers: b.peers.push((uri, None)),
        addrs: match resolved {
            Some(r) => if r.len() > 0 {
                b.addrs.push((r[0], uri))
            } else {
                b.addrs
            },
            None => b.addrs,
        },
    }
}

/// Why a node is not entered.
pub open spec fn not_entered(b: BookView, uri: Seq<char>, resolved: Option<Seq<Seq<char>>>) -> Option<
    PeeringError,
> {
    if target_of(b, uri) is Err {
        Some(target_of(b, uri)->Err_0)
    } else {
        let c = match resolved {
            Some(r) => clash(b.addrs, r),
            None => None,
        };
        match c {
            Some(i) => Some(PeeringError::SameAddress(i as usize)),
            None => match options_of(uri_of(uri)->0) {
                Err(e) => Some(PeeringError::Options(e)),
                Ok(_) => None,
            },
        }
    }
}

/// The property of not being a node.
pub open spec fn other_peer(uri: Seq<char>) -> spec_fn((Seq<char>, Option<Seq<char>>)) -> bool {
    |p: (Seq<char>, Option<Seq<char>>)| p.0 != uri
}

/// The property of not being the address of a node.
pub open spec fn other_addr(uri: Seq<char>) -> spec_fn((Seq<char>, Seq<char>)) -> bool {
    |a: (Seq<char>, Seq<char>)| a.1 != uri
}

/// The book without a node and its resolved address.
pub open spec fn struck(b: BookView, uri: Seq<char>) -> BookView {
    BookView {
        peers: b.peers.filter(other_peer(uri)),
        addrs: b.addrs.filter(other_addr(uri)),
    }
}

/// The views of texts.
pub open spec fn texts_view(v: Seq<String>) -> Seq<Seq<char>> {
    v.map_values(|s: String| s@)
}

/// The view of optional texts.
pub open spec fn resolved_view(v: Option<Vec<String>>) -> Option<Seq<Seq<char>>> {
    match v {
        Some(v) => Some(texts_view(v@)),
        None => None,
    }
}

fn scheme_tls(scheme: &String) -> (r: Option<bool>)
    ensures
        r == uses_tls(scheme@),
{
    proof {
        reveal_strlit("tcp");
        reveal_strlit("tls");
        assert("tcp"@[1] == 'c');
        assert("tls"@[1] == 'l');
    }
    if text_is(scheme, "tcp") {
        Some(false)
    } else if text_is(scheme, "tls") {
        Some(true)
    } else {
        None
    }
}

/// Whether links on an address are accepted over TLS.
pub fn begin_listen(addr: &String) -> (r: Result<bool, PeeringError>)
    ensures
        match uri_of(addr@) {
            None => r == Err::<bool, PeeringError>(PeeringError::Uri),
            Some(u) => match uses_tls(u.scheme) {
                None => r == Err::<bool, PeeringError>(PeeringError::Scheme),
                Some(tls) => r == Ok::<bool, PeeringError>(tls),
            },
        },
{
    let uri = match parse_uri(addr.as_str()) {
        Some(u) => u,
        None => {
            return Err(PeeringError::Uri);
        },
    };
    match scheme_tls(&uri.scheme) {
        Some(tls) => Ok(tls),
        None => Err(PeeringError::Scheme),
    }
}

/// The options of links that are accepted on an address, once the address was resolved.
pub fn finish_listen(addr: &String) -> (r: Result<LinkOptions, PeeringError>)
    ensures
        match uri_of(addr@) {
            None => r == Err::<LinkOptions, PeeringError>(PeeringError::Uri),
            Some(u) => match options_of(u) {
                Err(e) => r == Err::<LinkOptions, PeeringError>(PeeringError::Options(e)),
                Ok(o) => r matches Ok(v) && v@ == o,
            },
        },
{
    let uri = match parse_uri(addr.as_str()) {
        Some(u) => u,
        None => {
            return Err(PeeringError::Uri);
        },
    };
    match parse_link_options(&uri) {
        Ok(o) => Ok(o),
        Err(e) => Err(PeeringError::Options(e)),
    }
}

/// An address that a name was resolved to, and its text.
#[derive(Clone, Debug)]
pub struct Endpoint {
    pub ip: Ip,
    pub port: u16,
    /// The flow and the scope of an IPv6 address.
    pub flow: u32,
    pub scope: u32,
    pub text: String,
}

/// The view of a resolved address.
#[verifier::ext_equal]
pub struct EndpointView {
    pub ip: Ip,
    pub port: u16,
    pub flow: u32,
    pub scope: u32,
    pub text: Seq<char>,
}

impl View for Endpoint {
    type V = EndpointView;

    open spec fn view(&self) -> EndpointView {
        EndpointView {
            ip: self.ip,
            port: self.port,
            flow: self.flow,
            scope: self.scope,
            text: self.text@,
        }
    }
}

/// What resolved addresses are ordered by: IPv4 first, then the address, the port, the flow and the
/// scope.
pub open spec fn rank(e: EndpointView) -> Seq<u8> {
    match e.ip {
        Ip::V4(a) => seq![0u8] + a@ + be_bytes(e.port as nat, 2),
        Ip::V6(a) => seq![1u8] + a@ + be_bytes(e.port as nat, 2) + be_bytes(e.flow as nat, 4)
            + be_bytes(e.scope as nat, 4),
    }
}

/// Resolved addresses in their order.
pub open spec fn by_rank(s: Seq<EndpointView>) -> bool {
    forall|i: int, j: int|
        0 <= i < j < s.len() ==> !lex_less(rank(#[trigger] s[j]), rank(#[trigger] s[i]))
}

/// The views of resolved addresses.
pub open spec fn endpoint_views(v: Seq<Endpoint>) -> Seq<EndpointView> {
    v.map_values(|e: Endpoint| e@)
}

/// The texts of resolved addresses.
pub open spec fn endpoint_texts(s: Seq<EndpointView>) -> Seq<Seq<char>> {
    s.map_values(|e: EndpointView| e.text)
}

fn rank_of(e: &Endpoint) -> (r: Vec<u8>)
    ensures
        r@ == rank(e@),
{
    let mut r: Vec<u8> = Vec::new();
    match &e.ip {
        Ip::V4(a) => {
            r.push(0);
            append(&mut r, a.as_slice());
            append_be(&mut r, e.port as u64, 2);
        },
        Ip::V6(a) => {
            r.push(1);
            append(&mut r, a.as_slice());
            append_be(&mut r, e.port as u64, 2);
            append_be(&mut r, e.flow as u64, 4);
            append_be(&mut r, e.scope as u64, 4);
        },
    }
    assert(r@ =~= rank(e@));
    r
}

fn ranks_before(a: &Endpoint, b: &Endpoint) -> (r: bool)
    ensures
        r == lex_less(rank(a@), rank(b@)),
{
    let x = rank_of(a);
    let y = rank_of(b);
    proof {
        lemma_be_len(a.port as nat, 2);
        lemma_be_len(b.port as nat, 2);
        lemma_be_len(a.flow as nat, 4);
        lemma_be_len(b.flow as nat, 4);
        lemma_be_len(a.scope as nat, 4);
        lemma_be_len(b.scope as nat, 4);
    }
    if x[0] != y[0] {
        x[0] < y[0]
    } else {
        bytes_less(x.as_slice(), y.as_slice())
    }
}

/// Whether resolved addresses stand at these places of a list.
spec fn stand_at(s: Seq<EndpointView>, list: Seq<Endpoint>, places: Seq<usize>) -> bool {
    &&& places.len() == s.len()
    &&& forall|k: int|
        0 <= k < places.len() ==> 0 <= (#[trigger] places[k]) < list.len() && s[k]
            == list[places[k] as int]@
}

/// The texts of the addresses that a name was resolved to, in the order of the addresses.
pub fn sorted_addresses(list: &Vec<Endpoint>) -> (r: Vec<String>)
    ensures
        exists|s: Seq<EndpointView>|
            by_rank(s) && s.to_multiset() == endpoint_views(list@).to_multiset() && texts_view(r@)
                == #[trigger] endpoint_texts(s),
{
    let mut r: Vec<String> = Vec::new();
    let mut places: Vec<usize> = Vec::new();
    let ghost all = endpoint_views(list@);
    let ghost mut s: Seq<EndpointView> = Seq::empty();
    let mut n: usize = 0;
    proof {
        assert(all.take(0) =~= Seq::empty());
        assert(texts_view(r@) =~= endpoint_texts(s));
    }
    while n < list.len()
        invariant
            n <= list@.len(),
            all == endpoint_views(list@),
            by_rank(s),
            s.to_multiset() == all.take(n as int).to_multiset(),
            texts_view(r@) == endpoint_texts(s),
            r@.len() == s.len(),
            stand_at(s, list@, places@),
        decreases list@.len() - n,
    {
        let e = &list[n];
        let ghost x = e@;
        let mut at: usize = places.len();
        while at > 0 && ranks_before(e, &list[places[at - 1]])
            invariant
                at <= places@.len(),
                x == e@,
                by_rank(s),
                stand_at(s, list@, places@),
                forall|j: int| at <= j < s.len() ==> lex_less(rank(x), rank(#[trigger] s[j])),
            decreases at,
        {
            assert(s[at - 1] == list@[places@[at - 1] as int]@);
            at = at - 1;
        }
        let ghost before = s;
        proof {
            if at > 0 {
                assert(s[at - 1] == list@[places@[at - 1] as int]@);
            }
            assert forall|i: int| 0 <= i < at implies !lex_less(
                rank(x),
                rank(#[trigger] before[i]),
            ) by {
                if i < at - 1 {
                    assert(!lex_less(rank(before[at - 1]), rank(before[i])));
                    lemma_rank_order(x, before[at - 1], before[i]);
                }
            }
            assert forall|j: int| at <= j < before.len() implies !lex_less(
                rank(#[trigger] before[j]),
                rank(x),
            ) by {
                lemma_rank_order(x, before[j], x);
            }
            vstd::seq_lib::to_multiset_insert(before, at as int, x);
            assert(all.take(n + 1) =~= all.take(n as int).push(x));
            all.take(n as int).to_multiset_ensures();
            s = before.insert(at as int, x);
        }
        places.insert(at, n);
        let ghost texts = r@;
        let text = e.text.clone();
        r.insert(at, text);
        proof {
            assert(texts_view(texts).insert(at as int, x.text) =~= texts_view(r@));
            assert(endpoint_texts(before).insert(at as int, x.text) =~= endpoint_texts(s));
        }
        n = n + 1;
    }
    assert(all.take(n as int) =~= all);
    r
}

proof fn lemma_rank_order(a: EndpointView, b: EndpointView, c: EndpointView)
    ensures
        lex_less(rank(a), rank(b)) ==> !lex_less(rank(b), rank(a)),
        !lex_less(rank(a), rank(b)) && !lex_less(rank(b), rank(c)) ==> !lex_less(rank(a), rank(c)),
{
    let x = rank(a);
    let y = rank(b);
    let z = rank(c);
    if lex_less(x, y) && lex_less(y, x) {
        lemma_lex_transitive(x, y, x);
        lemma_lex_irreflexive(x);
    }
    lemma_lex_total(x, y);
    if lex_less(y, x) && lex_less(x, z) {
        lemma_lex_transitive(y, x, z);
    }
}

impl PeerBook {
    /// The invariant.
    pub open spec fn wf(&self) -> bool {
        book_wf(self@)
    }

    /// An empty book.
    pub fn new() -> (r: Self)
        ensures
            r.wf(),
            r@ == (BookView { peers: Seq::empty(), addrs: Seq::empty() }),
    {
        let r = PeerBook { peers: Vec::new(), addrs: Vec::new() };
        assert(r@.peers =~= Seq::empty());
        assert(r@.addrs =~= Seq::empty());
        r
    }

    fn place_of(&self, uri: &String) -> (r: Option<usize>)
        ensures
            match r {
                Some(i) => i < self.peers@.len() && self.peers@[i as int].uri@ == uri@ && knows(
                    self@,
                    uri@,
                ),
                None => !knows(self@, uri@),
            },
    {
        let mut i: usize = 0;
        while i < self.peers.len()
            invariant
                i <= self.peers@.len(),
                forall|j: int| 0 <= j < i ==> (#[trigger] self@.peers[j]).0 != uri@,
            decreases self.peers@.len() - i,
        {
            assert(self@.peers[i as int].0 == self.peers@[i as int].uri@);
            if self.peers[i].uri == *uri {
                return Some(i);
            }
            i = i + 1;
        }
        None
    }

    /// Where to connect to for a node that is not in the book.
    pub fn begin_add(&self, uri: &String) -> (r: Result<Target, PeeringError>)
        ensures
            match target_of(self@, uri@) {
                Err(e) => r == Err::<Target, PeeringError>(e),
                Ok(t) => r matches Ok(v) && v@ == t,
            },
    {
        if self.place_of(uri).is_some() {
            return Err(PeeringError::Exists);
        }
        let u = match parse_uri(uri.as_str()) {
            Some(u) => u,
            None => {
                return Err(PeeringError::Uri);
            },
        };
        let tls = match scheme_tls(&u.scheme) {
            Some(t) => t,
            None => {
                return Err(PeeringError::Scheme);
            },
        };
        let host = match u.host {
            Some(h) => h,
            None => {
                return Err(PeeringError::Host);
            },
        };
        let port: u16 = match u.port {
            Some(p) => p,
            None => {
                return Err(PeeringError::Port);
            },
        };
        Ok(Target { host, port, tls })
    }

    fn find_clash(&self, resolved: &Vec<String>) -> (r: Option<usize>)
        ensures
            match r {
                Some(i) => clash(self@.addrs, texts_view(resolved@)) == Some(i as int),
                None => clash(self@.addrs, texts_view(resolved@)) is None,
            },
    {
        let ghost all = texts_view(resolved@);
        let ghost addrs = self@.addrs;
        let mut i: usize = 0;
        assert(all.take(0) =~= Seq::empty());
        while i < resolved.len()
            invariant
                i <= resolved@.len(),
                all == texts_view(resolved@),
                addrs == self@.addrs,
                clash(addrs, all.take(i as int)) is None,
            decreases resolved@.len() - i,
        {
            proof {
                assert(all.take(i + 1).drop_last() =~= all.take(i as int));
                assert(all.take(i + 1).last() == resolved@[i as int]@);
            }
            let mut n: usize = 0;
            let ghost p = |a: (Seq<char>, Seq<char>)| a.0 == resolved@[i as int]@;
            while n < self.addrs.len()
                invariant
                    n <= self.addrs@.len(),
                    i < resolved@.len(),
                    addrs == self@.addrs,
                    all == texts_view(resolved@),
                    all.take(i + 1).last() == resolved@[i as int]@,
                    all.take(i + 1).drop_last() == all.take(i as int),
                    clash(addrs, all.take(i as int)) is None,
                    p == (|a: (Seq<char>, Seq<char>)| a.0 == resolved@[i as int]@),
                    forall|j: int| 0 <= j < n ==> !p(#[trigger] addrs[j]),
                decreases self.addrs@.len() - n,
            {
                assert(addrs[n as int].0 == self.addrs@[n as int].0@);
                if self.addrs[n].0 == resolved[i] {
                    proof {
                        crate::seqs::lemma_first_index_at(addrs, p, n as int);
                        assert(clash(addrs, all.take(i + 1)) == Some(n as int));
                        lemma_clash_first(addrs, all, i + 1);
                    }
                    return Some(n);
                }
                n = n + 1;
            }
            proof {
                crate::seqs::lemma_first_index_at(addrs, p, n as int);
            }
            i = i + 1;
        }
        assert(all.take(i as int) =~= all);
        None
    }

    /// Enters a node, once its name was resolved or could not be. Gives the options of the link.
    pub fn finish_add(&mut self, uri: &String, resolved: Option<Vec<String>>) -> (r: Result<
        LinkOptions,
        PeeringError,
    >)
        requires
            old(self).wf(),
        ensures
            final(self).wf(),
            match not_entered(old(self)@, uri@, resolved_view(resolved)) {
                Some(e) => r == Err::<LinkOptions, PeeringError>(e) && final(self)@ == old(self)@,
                None => final(self)@ == entered(old(self)@, uri@, resolved_view(resolved)) && (
                r matches Ok(o) && options_of(uri_of(uri@)->0) == Ok::<OptionsView, OptionError>(
                    o@,
                )),
            },
    {
        let ghost before = self@;
        if let Err(e) = self.begin_add(uri) {
            return Err(e);
        }
        if let Some(list) = &resolved {
            if let Some(i) = self.find_clash(list) {
                return Err(PeeringError::SameAddress(i));
            }
        }
        let u = match parse_uri(uri.as_str()) {
            Some(u) => u,
            None => {
                return Err(PeeringError::Uri);
            },
        };
        let options = match parse_link_options(&u) {
            Ok(o) => o,
            Err(e) => {
                return Err(PeeringError::Options(e));
            },
        };
        self.peers.push(PeerSlot { uri: uri.clone(), error: None });
        assert(self@.peers =~= before.peers.push((uri@, None)));
        assert(self@.addrs =~= before.addrs);
        if let Some(list) = &resolved {
            if list.len() > 0 {
                self.addrs.push((list[0].clone(), uri.clone()));
                assert(texts_view(list@)[0] == list@[0]@);
                assert(self@.addrs =~= before.addrs.push((list@[0]@, uri@)));
            }
        }
        proof {
            lemma_entered_wf(before, uri@, resolved_view(resolved));
        }
        Ok(options)
    }

    /// Takes note of what went wrong with a node last, or that nothing did.
    pub fn set_error(&mut self, uri: &String, error: Option<String>)
        requires
            old(self).wf(),
        ensures
            final(self).wf(),
            final(self)@.addrs == old(self)@.addrs,
            final(self)@.peers.len() == old(self)@.peers.len(),
            forall|i: int|
                0 <= i < old(self)@.peers.len() ==> (#[trigger] final(self)@.peers[i]) == (
                if old(self)@.peers[i].0 == uri@ {
                    (uri@, text_view(error))
                } else {
                    old(self)@.peers[i]
                }),
    {
        let ghost before = self@;
        match self.place_of(uri) {
            Some(i) => {
                self.peers[i].error = error;
                proof {
                    assert(before.peers[i as int].0 == uri@);
                    assert(self@.peers =~= before.peers.update(
                        i as int,
                        (uri@, text_view(error)),
                    ));
                    assert forall|j: int| 0 <= j < before.addrs.len() implies knows(
                        self@,
                        (#[trigger] self@.addrs[j]).1,
                    ) by {
                        assert(self@.addrs[j] == before.addrs[j]);
                        let k = choose|k: int|
                            0 <= k < before.peers.len() && (#[trigger] before.peers[k]).0
                                == before.addrs[j].1;
                        assert(self@.peers[k].0 == before.peers[k].0);
                    }
                }
            },
            None => {
                proof {
                    assert forall|j: int| 0 <= j < before.peers.len() implies (
                    #[trigger] before.peers[j]).0 != uri@ by {}
                }
            },
        }
    }

    /// Strikes a node out.
    pub fn remove_peer(&mut self, uri: &String) -> (r: Result<(), PeeringError>)
        requires
            old(self).wf(),
        ensures
            final(self).wf(),
            if knows(old(self)@, uri@) {
                r is Ok && final(self)@ == struck(old(self)@, uri@)
            } else {
                r == Err::<(), PeeringError>(PeeringError::NotFound) && final(self)@ == old(self)@
            },
    {
        let ghost before = self@;
        let ghost pp = other_peer(uri@);
        let ghost pa = other_addr(uri@);
        match self.place_of(uri) {
            None => Err(PeeringError::NotFound),
            Some(at) => {
                let _ = self.peers.remove(at);
                proof {
                    assert(self@.peers =~= before.peers.remove(at as int));
                    assert(before.peers[at as int].0 == uri@);
                    lemma_filter_one(before.peers, pp, at as int);
                }
                let ghost a0 = self.addrs@;
                let ghost m0 = before.addrs;
                let mut i: usize = 0;
                let ghost mut done: int = 0;
                proof {
                    assert(m0.take(0) =~= Seq::empty());
                    assert(m0.take(0).filter(pa) =~= Seq::empty()) by {
                        reveal(Seq::filter);
                    }
                    assert(self@.addrs =~= m0.take(0).filter(pa) + m0.skip(0));
                }
                while i < self.addrs.len()
                    invariant
                        0 <= done <= m0.len(),
                        i == m0.take(done).filter(pa).len(),
                        self@.addrs == m0.take(done).filter(pa) + m0.skip(done),
                        self@.peers == before.peers.filter(pp),
                        pa == other_addr(uri@),
                    decreases m0.len() - done,
                {
                    let ghost now = self@.addrs;
                    proof {
                        assert(now.len() == self.addrs@.len());
                        assert(done < m0.len());
                        assert(now[i as int] == m0[done]);
                        assert(now[i as int].1 == self.addrs@[i as int].1@);
                        assert(m0.take(done + 1).drop_last() =~= m0.take(done));
                        reveal(Seq::filter);
                    }
                    if self.addrs[i].1 == *uri {
                        let _ = self.addrs.remove(i);
                        assert(self@.addrs =~= now.remove(i as int));
                    } else {
                        i = i + 1;
                    }
                    assert(self@.addrs =~= m0.take(done + 1).filter(pa) + m0.skip(done + 1));
                    proof {
                        done = done + 1;
                    }
                }
                proof {
                    assert(self.addrs@.len() == self@.addrs.len());
                    assert(m0.take(done) =~= m0);
                    assert(self@.addrs =~= m0.filter(pa));
                    lemma_struck_wf(before, uri@);
                }
                Ok(())
            },
        }
    }
}

proof fn lemma_clash_first(
    addrs: Seq<(Seq<char>, Seq<char>)>,
    resolved: Seq<Seq<char>>,
    n: int,
)
    requires
        0 <= n <= resolved.len(),
        clash(addrs, resolved.take(n)) is Some,
    ensures
        clash(addrs, resolved) == clash(addrs, resolved.take(n)),
    decreases resolved.len(),
{
    if n < resolved.len() {
        assert(resolved.drop_last().take(n) =~= resolved.take(n));
        lemma_clash_first(addrs, resolved.drop_last(), n);
    } else {
        assert(resolved.take(n) =~= resolved);
    }
}

proof fn lemma_entered_wf(b: BookView, uri: Seq<char>, resolved: Option<Seq<Seq<char>>>)
    requires
        book_wf(b),
        !knows(b, uri),
    ensures
        book_wf(entered(b, uri, resolved)),
{
    let n = entered(b, uri, resolved);
    assert(n.peers[b.peers.len() as int].0 == uri);
    assert forall|i: int, j: int| 0 <= i < j < n.peers.len() implies (#[trigger] n.peers[i]).0 != (
    #[trigger] n.peers[j]).0 by {
        assert(n.peers[i] == b.peers[i]);
        if j < b.peers.len() {
            assert(n.peers[j] == b.peers[j]);
        }
    }
    assert forall|i: int| 0 <= i < n.addrs.len() implies knows(n, (#[trigger] n.addrs[i]).1) by {
        if i < b.addrs.len() {
            assert(n.addrs[i] == b.addrs[i]);
            let k = choose|k: int|
                0 <= k < b.peers.len() && (#[trigger] b.peers[k]).0 == b.addrs[i].1;
            assert(n.peers[k] == b.peers[k]);
        }
    }
}

/// Filtering out the one element that lacks the property is removing it.
proof fn lemma_filter_one<A>(s: Seq<A>, p: spec_fn(A) -> bool, at: int)
    requires
        0 <= at < s.len(),
        !p(s[at]),
        forall|i: int| 0 <= i < s.len() && i != at ==> p(#[trigger] s[i]),
    ensures
        s.filter(p) == s.remove(at),
    decreases s.len(),
{
    reveal(Seq::filter);
    let d = s.drop_last();
    if at == s.len() - 1 {
        lemma_filter_all(d, p);
        assert(s.remove(at) =~= d);
    } else {
        lemma_filter_one(d, p, at);
        assert(s.remove(at) =~= d.remove(at).push(s.last()));
    }
}

proof fn lemma_filter_all<A>(s: Seq<A>, p: spec_fn(A) -> bool)
    requires
        forall|i: int| 0 <= i < s.len() ==> p(#[trigger] s[i]),
    ensures
        s.filter(p) == s,
    decreases s.len(),
{
    reveal(Seq::filter);
    if s.len() > 0 {
        lemma_filter_all(s.drop_last(), p);
        assert(s =~= s.drop_last().push(s.last()));
    }
}

proof fn lemma_filter_from<A>(s: Seq<A>, p: spec_fn(A) -> bool, i: int) -> (o: int)
    requires
        0 <= i < s.filter(p).len(),
    ensures
        0 <= o < s.len(),
        s[o] == s.filter(p)[i],
        p(s[o]),
    decreases s.len(),
{
    reveal(Seq::filter);
    let d = s.drop_last();
    if i < d.filter(p).len() {
        lemma_filter_from(d, p, i)
    } else {
        s.len() - 1
    }
}

proof fn lemma_filter_keeps<A>(s: Seq<A>, p: spec_fn(A) -> bool, o: int) -> (i: int)
    requires
        0 <= o < s.len(),
        p(s[o]),
    ensures
        0 <= i < s.filter(p).len(),
        s.filter(p)[i] == s[o],
    decreases s.len(),
{
    reveal(Seq::filter);
    let d = s.drop_last();
    if o < d.len() {
        lemma_filter_keeps(d, p, o)
    } else {
        d.filter(p).len() as int
    }
}

proof fn lemma_struck_wf(b: BookView, uri: Seq<char>)
    requires
        book_wf(b),
        knows(b, uri),
    ensures
        book_wf(struck(b, uri)),
{
    let n = struck(b, uri);
    let pp = other_peer(uri);
    let pa = other_addr(uri);
    let at = choose|i: int| 0 <= i < b.peers.len() && (#[trigger] b.peers[i]).0 == uri;
    assert forall|i: int| 0 <= i < b.peers.len() && i != at implies pp(#[trigger] b.peers[i]) by {
        if i < at {
            assert(b.peers[i].0 != b.peers[at].0);
        } else {
            assert(b.peers[at].0 != b.peers[i].0);
        }
    }
    lemma_filter_one(b.peers, pp, at);
    assert(n.peers == b.peers.remove(at));
    assert forall|i: int, j: int| 0 <= i < j < n.peers.len() implies (#[trigger] n.peers[i]).0 != (
    #[trigger] n.peers[j]).0 by {
        let oi = if i < at { i } else { i + 1 };
        let oj = if j < at { j } else { j + 1 };
        assert(n.peers[i] == b.peers[oi]);
        assert(n.peers[j] == b.peers[oj]);
    }
    assert forall|i: int| 0 <= i < n.addrs.len() implies knows(n, (#[trigger] n.addrs[i]).1) by {
        let o = lemma_filter_from(b.addrs, pa, i);
        let k = choose|k: int| 0 <= k < b.peers.len() && (#[trigger] b.peers[k]).0 == b.addrs[o].1;
        let i2 = lemma_filter_keeps(b.peers, pp, k);
        assert(n.peers[i2].0 == n.addrs[i].1);
    }
}

// ---------------------------------------------------------------------------
// Laws
// ---------------------------------------------------------------------------

/// Striking out a node that was just entered gives the book as it was.
pub proof fn lemma_enter_then_strike(
    b: BookView,
    uri: Seq<char>,
    resolved: Option<Seq<Seq<char>>>,
)
    requires
        book_wf(b),
        !knows(b, uri),
    ensures
        struck(entered(b, uri, resolved), uri) == b,
{
    let n = entered(b, uri, resolved);
    let pp = other_peer(uri);
    let pa = other_addr(uri);
    assert forall|i: int| 0 <= i < n.peers.len() && i != b.peers.len() implies pp(
        #[trigger] n.peers[i],
    ) by {
        assert(n.peers[i] == b.peers[i]);
    }
    lemma_filter_one(n.peers, pp, b.peers.len() as int);
    assert(n.peers.remove(b.peers.len() as int) =~= b.peers);
    lemma_enter_then_strike_addrs(b, uri, resolved);
}

proof fn lemma_enter_then_strike_addrs(
    b: BookView,
    uri: Seq<char>,
    resolved: Option<Seq<Seq<char>>>,
)
    requires
        book_wf(b),
        !knows(b, uri),
    ensures
        entered(b, uri, resolved).addrs.filter(other_addr(uri)) == b.addrs,
{
    let n = entered(b, uri, resolved);
    let pa = other_addr(uri);
    assert forall|i: int| 0 <= i < b.addrs.len() implies pa(#[trigger] b.addrs[i]) by {
        assert(knows(b, b.addrs[i].1));
    }
    lemma_filter_all(b.addrs, pa);
    if n.addrs.len() > b.addrs.len() {
        assert forall|i: int| 0 <= i < n.addrs.len() && i != b.addrs.len() implies pa(
            #[trigger] n.addrs[i],
        ) by {
            assert(n.addrs[i] == b.addrs[i]);
        }
        lemma_filter_one(n.addrs, pa, b.addrs.len() as int);
        assert(n.addrs.remove(b.addrs.len() as int) =~= b.addrs);
    }
}

/// A node is not entered under two names: where one of its addresses is that of a node of the
/// book, it is refused.
pub proof fn lemma_same_address_refused(
    b: BookView,
    uri: Seq<char>,
    resolved: Seq<Seq<char>>,
    i: int,
    j: int,
)
    requires
        0 <= i < resolved.len(),
        0 <= j < b.addrs.len(),
        b.addrs[j].0 == resolved[i],
    ensures
        not_entered(b, uri, Some(resolved)) is Some,
{
    lemma_clash_found(b.addrs, resolved, i, j);
}

proof fn lemma_clash_found(
    addrs: Seq<(Seq<char>, Seq<char>)>,
    resolved: Seq<Seq<char>>,
    i: int,
    j: int,
)
    requires
        0 <= i < resolved.len(),
        0 <= j < addrs.len(),
        addrs[j].0 == resolved[i],
    ensures
        clash(addrs, resolved) is Some,
    decreases resolved.len(),
{
    if i < resolved.len() - 1 {
        lemma_clash_found(addrs, resolved.drop_last(), i, j);
    } else {
        let p = |a: (Seq<char>, Seq<char>)| a.0 == resolved.last();
        crate::seqs::lemma_first_index(addrs, p);
        assert(p(addrs[j]));
    }
}

/// A node is refused for an address only if a node of the book has that very address, and the place that
/// is told is one where it stands. With no address in common it is not.
pub proof fn lemma_clash_is_real(addrs: Seq<(Seq<char>, Seq<char>)>, resolved: Seq<Seq<char>>)
    ensures
        match clash(addrs, resolved) {
            Some(at) => 0 <= at < addrs.len() && resolved.contains(addrs[at].0),
            None => forall|i: int, j: int|
                0 <= i < resolved.len() && 0 <= j < addrs.len() ==> (#[trigger] addrs[j]).0
                    != #[trigger] resolved[i],
        },
    decreases resolved.len(),
{
    if resolved.len() > 0 {
        let d = resolved.drop_last();
        lemma_clash_is_real(addrs, d);
        let p = |a: (Seq<char>, Seq<char>)| a.0 == resolved.last();
        crate::seqs::lemma_first_index(addrs, p);
        assert(resolved[resolved.len() - 1] == resolved.last());
        match clash(addrs, d) {
            Some(at) => {
                let i = choose|i: int| 0 <= i < d.len() && d[i] == addrs[at].0;
                assert(resolved[i] == addrs[at].0);
            },
            None => {
                let at = addr_at(addrs, resolved.last());
                if at < addrs.len() {
                    assert(p(addrs[at]));
                } else {
                    assert forall|i: int, j: int|
                        0 <= i < resolved.len() && 0 <= j < addrs.len() implies (#[trigger] addrs[j]).0
                        != #[trigger] resolved[i] by {
                        assert(!p(addrs[j]));
                        if i < d.len() {
                            assert(d[i] == resolved[i]);
                            assert(addrs[j].0 != d[i]);
                        }
                    }
                }
            },
        }
    }
}

/// A node is entered exactly if it is not in the book, its address has a scheme that we support, a host,
/// a port and good options, and no node of the book has one of its resolved addresses. It is then in
/// the book without an error, with the first resolved address; all other nodes are as they were.
pub proof fn lemma_when_a_node_is_entered(
    b: BookView,
    uri: Seq<char>,
    resolved: Option<Seq<Seq<char>>>,
)
    ensures
        not_entered(b, uri, resolved) is None <==> {
            &&& forall|i: int| 0 <= i < b.peers.len() ==> (#[trigger] b.peers[i]).0 != uri
            &&& uri_of(uri) matches Some(u) && (u.scheme == "tcp"@ || u.scheme == "tls"@) && u.host is Some
                && u.port is Some && options_of(u) is Ok
            &&& resolved matches Some(r) ==> forall|i: int, j: int|
                0 <= i < r.len() && 0 <= j < b.addrs.len() ==> (#[trigger] b.addrs[j]).0
                    != #[trigger] r[i]
        },
        ({
            let n = entered(b, uri, resolved);
            &&& n.peers.len() == b.peers.len() + 1
            &&& n.peers.last() == (uri, None::<Seq<char>>)
            &&& n.peers.drop_last() == b.peers
            &&& (resolved matches Some(r) && r.len() > 0) ==> n.addrs.len() == b.addrs.len() + 1
                && n.addrs.last() == (resolved->0[0], uri) && n.addrs.drop_last() == b.addrs
            &&& !(resolved matches Some(r) && r.len() > 0) ==> n.addrs == b.addrs
        }),
{
    if let Some(r) = resolved {
        lemma_clash_is_real(b.addrs, r);
        if let Some(at) = clash(b.addrs, r) {
            let i = choose|i: int| 0 <= i < r.len() && r[i] == b.addrs[at].0;
            assert(b.addrs[at].0 == r[i]);
        }
    }
    let n = entered(b, uri, resolved);
    assert(n.peers.drop_last() =~= b.peers);
    if resolved matches Some(r) && r.len() > 0 {
        assert(n.addrs.drop_last() =~= b.addrs);
    }
    if exists|i: int| 0 <= i < b.peers.len() && (#[trigger] b.peers[i]).0 == uri {
        assert(knows(b, uri));
    }
}

/// Resolved addresses are ordered as their parts are: IPv4 before IPv6, then by the address, then by the
/// port.
pub proof fn lemma_order_of_addresses(a: EndpointView, b: EndpointView)
    ensures
        a.ip is V4 && b.ip is V6 ==> lex_less(rank(a), rank(b)),
        a.ip is V4 && b.ip is V4 && lex_less(a.ip.octets(), b.ip.octets()) ==> lex_less(rank(a), rank(b)),
        a.ip is V6 && b.ip is V6 && lex_less(a.ip.octets(), b.ip.octets()) ==> lex_less(rank(a), rank(b)),
        a.ip == b.ip && a.port < b.port ==> lex_less(rank(a), rank(b)),
{
    crate::bytes::lemma_pow256_values();
    crate::bytes::lemma_be_len(a.port as nat, 2);
    crate::bytes::lemma_be_len(b.port as nat, 2);
    let (x, y) = (rank(a), rank(b));
    assert(x[0] != y[0] ==> (a.ip is V4) != (b.ip is V4));
    reveal_with_fuel(lex_less, 2);
    let n = a.ip.octets().len();
    if a.ip is V4 == b.ip is V4 {
        let (s, t) = (x.skip(1), y.skip(1));
        lemma_lex_prefix(seq![x[0]], s, t);
        assert(x =~= seq![x[0]] + s);
        assert(y =~= seq![x[0]] + t);
        let (o, p) = (a.ip.octets(), b.ip.octets());
        assert(s.take(n as int) =~= o);
        assert(t.take(n as int) =~= p);
        if lex_less(o, p) && o.len() == p.len() {
            lemma_lex_front(o, p, s.skip(n as int), t.skip(n as int));
            assert(s =~= o + s.skip(n as int));
            assert(t =~= p + t.skip(n as int));
        }
        if a.ip == b.ip && a.port < b.port {
            let (u, w) = (s.skip(n as int), t.skip(n as int));
            lemma_lex_prefix(o, u, w);
            assert(s =~= o + u);
            assert(t =~= o + w);
            let (pa, pb) = (be_bytes(a.port as nat, 2), be_bytes(b.port as nat, 2));
            assert(u.take(2) =~= pa);
            assert(w.take(2) =~= pb);
            lemma_ports_in_order(a.port, b.port);
            lemma_lex_front(pa, pb, u.skip(2), w.skip(2));
            assert(u =~= pa + u.skip(2));
            assert(w =~= pb + w.skip(2));
        }
    } else if a.ip is V4 {
        assert(x[0] == 0 && y[0] == 1);
    }
}

proof fn lemma_lex_prefix(p: Seq<u8>, a: Seq<u8>, b: Seq<u8>)
    ensures
        lex_less(p + a, p + b) == lex_less(a, b),
    decreases p.len(),
{
    if p.len() == 0 {
        assert(p + a =~= a);
        assert(p + b =~= b);
    } else {
        let d = p.drop_first();
        lemma_lex_prefix(d, a, b);
        assert((p + a).drop_first() =~= d + a);
        assert((p + b).drop_first() =~= d + b);
        assert((p + a)[0] == p[0] && (p + b)[0] == p[0]);
    }
}

proof fn lemma_lex_front(a: Seq<u8>, b: Seq<u8>, x: Seq<u8>, y: Seq<u8>)
    requires
        a.len() == b.len(),
        lex_less(a, b),
    ensures
        lex_less(a + x, b + y),
    decreases a.len(),
{
    if a.len() > 0 {
        assert((a + x)[0] == a[0] && (b + y)[0] == b[0]);
        assert((a + x).drop_first() =~= a.drop_first() + x);
        assert((b + y).drop_first() =~= b.drop_first() + y);
        if a[0] == b[0] {
            lemma_lex_front(a.drop_first(), b.drop_first(), x, y);
        }
    }
}

proof fn lemma_ports_in_order(a: u16, b: u16)
    requires
        a < b,
    ensures
        lex_less(be_bytes(a as nat, 2), be_bytes(b as nat, 2)),
{
    crate::bytes::lemma_pow256_values();
    crate::bytes::lemma_be_len(a as nat, 2);
    crate::bytes::lemma_be_len(b as nat, 2);
    reveal_with_fuel(be_bytes, 3);
    reveal_with_fuel(lex_less, 3);
    let (x, y) = (be_bytes(a as nat, 2), be_bytes(b as nat, 2));
    assert(x[0] == a / 256 && x[1] == a % 256);
    assert(y[0] == b / 256 && y[1] == b % 256);
    assert(x.drop_first()[0] == x[1] && y.drop_first()[0] == y[1]);
}

/// Of several clashes the first one is told: no resolved address before the one that clashes is in the
/// book, and it is the first entry of the book with that address.
pub proof fn lemma_first_clash_is_told(
    addrs: Seq<(Seq<char>, Seq<char>)>,
    resolved: Seq<Seq<char>>,
)
    requires
        clash(addrs, resolved) is Some,
    ensures
        exists|i: int|
            {
                let at = clash(addrs, resolved)->0;
                &&& 0 <= i < resolved.len()
                &&& 0 <= at < addrs.len()
                &&& addrs[at].0 == #[trigger] resolved[i]
                &&& forall|j: int| 0 <= j < at ==> (#[trigger] addrs[j]).0 != resolved[i]
                &&& forall|k: int, j: int|
                    0 <= k < i && 0 <= j < addrs.len() ==> (#[trigger] addrs[j]).0
                        != #[trigger] resolved[k]
            },
    decreases resolved.len(),
{
    let d = resolved.drop_last();
    let n = resolved.len() - 1;
    let at = clash(addrs, resolved)->0;
    assert(resolved[n] == resolved.last());
    if clash(addrs, d) is Some {
        lemma_first_clash_is_told(addrs, d);
        let i = choose|i: int|
            {
                &&& 0 <= i < d.len()
                &&& addrs[at].0 == #[trigger] d[i]
                &&& forall|j: int| 0 <= j < at ==> (#[trigger] addrs[j]).0 != d[i]
                &&& forall|k: int, j: int|
                    0 <= k < i && 0 <= j < addrs.len() ==> (#[trigger] addrs[j]).0
                        != #[trigger] d[k]
            };
        assert(resolved[i] == d[i]);
        assert forall|k: int, j: int| 0 <= k < i && 0 <= j < addrs.len() implies (
        #[trigger] addrs[j]).0 != #[trigger] resolved[k] by {
            assert(d[k] == resolved[k]);
        }
    } else {
        lemma_clash_is_real(addrs, d);
        let p = |a: (Seq<char>, Seq<char>)| a.0 == resolved.last();
        crate::seqs::lemma_first_index(addrs, p);
        assert(p(addrs[at]));
        assert(addrs[at].0 == resolved[n]);
        assert forall|j: int| 0 <= j < at implies (#[trigger] addrs[j]).0 != resolved[n] by {
            assert(!p(addrs[j]));
        }
        assert forall|k: int, j: int| 0 <= k < n && 0 <= j < addrs.len() implies (
        #[trigger] addrs[j]).0 != #[trigger] resolved[k] by {
            assert(d[k] == resolved[k]);
        }
    }
}

/// What is told is why a node is not entered, in this order: that it is in the book, that its address
/// is none, that its scheme is none of ours, that it has no host or no port, that a node in the book
/// has its address, and what is wrong with its options.
pub proof fn lemma_why_a_node_is_not_entered(
    b: BookView,
    uri: Seq<char>,
    resolved: Option<Seq<Seq<char>>>,
)
    ensures
        ({
            let told = not_entered(b, uri, resolved);
            let there = exists|i: int| 0 <= i < b.peers.len() && (#[trigger] b.peers[i]).0 == uri;
            &&& there ==> told == Some(PeeringError::Exists)
            &&& !there && uri_of(uri) is None ==> told == Some(PeeringError::Uri)
            &&& !there ==> (uri_of(uri) matches Some(u) ==> {
                let ours = u.scheme == "tcp"@ || u.scheme == "tls"@;
                let clashes = resolved matches Some(r) && clash(b.addrs, r) is Some;
                &&& !ours ==> told == Some(PeeringError::Scheme)
                &&& ours && u.host is None ==> told == Some(PeeringError::Host)
                &&& ours && u.host is Some && u.port is None ==> told == Some(PeeringError::Port)
                &&& ours && u.host is Some && u.port is Some && clashes ==> told == Some(
                    PeeringError::SameAddress(clash(b.addrs, resolved->0)->0 as usize),
                )
                &&& ours && u.host is Some && u.port is Some && !clashes ==> match options_of(u) {
                    Err(e) => told == Some(PeeringError::Options(e)),
                    Ok(_) => told is None,
                }
            })
        }),
{
}

/// A link to `tls` addresses is encrypted, and to `tcp` addresses it is not; it goes to the host and
/// the port that the address names.
pub proof fn lemma_where_a_link_goes(b: BookView, uri: Seq<char>)
    requires
        target_of(b, uri) is Ok,
    ensures
        uri_of(uri) matches Some(u) && target_of(b, uri) matches Ok(t) && {
            &&& u.host == Some(t.host)
            &&& u.port == Some(t.port)
            &&& t.tls ==> u.scheme == "tls"@
            &&& !t.tls ==> u.scheme == "tcp"@
        },
{
}

/// Striking a node takes it out of the book with all its addresses, and leaves everyone else in.
pub proof fn lemma_only_that_node_is_struck(
    b: BookView,
    uri: Seq<char>,
    p: (Seq<char>, Option<Seq<char>>),
    a: (Seq<char>, Seq<char>),
)
    ensures
        struck(b, uri).peers.contains(p) <==> b.peers.contains(p) && p.0 != uri,
        struck(b, uri).addrs.contains(a) <==> b.addrs.contains(a) && a.1 != uri,
{
    let f = other_peer(uri);
    let g = other_addr(uri);
    let peers = b.peers.filter(f);
    let addrs = b.addrs.filter(g);
    if b.peers.contains(p) && p.0 != uri {
        let i = choose|i: int| 0 <= i < b.peers.len() && b.peers[i] == p;
        assert(f(b.peers[i]));
        let _o = lemma_filter_keeps(b.peers, f, i);
    }
    if peers.contains(p) {
        let o = choose|o: int| 0 <= o < peers.len() && peers[o] == p;
        let i = lemma_filter_from(b.peers, f, o);
        assert(b.peers[i] == p);
    }
    if b.addrs.contains(a) && a.1 != uri {
        let i = choose|i: int| 0 <= i < b.addrs.len() && b.addrs[i] == a;
        assert(g(b.addrs[i]));
        let _o = lemma_filter_keeps(b.addrs, g, i);
    }
    if addrs.contains(a) {
        let o = choose|o: int| 0 <= o < addrs.len() && addrs[o] == a;
        let i = lemma_filter_from(b.addrs, g, o);
        assert(b.addrs[i] == a);
    }
}

/// Addresses that have host and port in common are ordered by the flow, and those that have that in
/// common too by the scope.
pub proof fn lemma_order_of_flows(a: EndpointView, b: EndpointView)
    requires
        a.ip is V6,
        a.ip == b.ip,
        a.port == b.port,
    ensures
        a.flow < b.flow ==> lex_less(rank(a), rank(b)),
        a.flow == b.flow && a.scope < b.scope ==> lex_less(rank(a), rank(b)),
        a.flow == b.flow && a.scope == b.scope ==> rank(a) == rank(b),
{
    crate::bytes::lemma_pow256_values();
    let o = seq![1u8] + a.ip.octets() + be_bytes(a.port as nat, 2);
    let (fa, fb) = (be_bytes(a.flow as nat, 4), be_bytes(b.flow as nat, 4));
    let (sa, sb) = (be_bytes(a.scope as nat, 4), be_bytes(b.scope as nat, 4));
    crate::bytes::lemma_be_len(a.flow as nat, 4);
    crate::bytes::lemma_be_len(b.flow as nat, 4);
    crate::bytes::lemma_be_len(a.scope as nat, 4);
    crate::bytes::lemma_be_len(b.scope as nat, 4);
    assert(rank(a) =~= o + (fa + sa));
    assert(rank(b) =~= o + (fb + sb));
    lemma_lex_prefix(o, fa + sa, fb + sb);
    if a.flow < b.flow {
        lemma_numbers_in_order(a.flow as nat, b.flow as nat, 4);
        lemma_lex_front(fa, fb, sa, sb);
    } else if a.flow == b.flow && a.scope < b.scope {
        lemma_lex_prefix(fa, sa, sb);
        lemma_numbers_in_order(a.scope as nat, b.scope as nat, 4);
    }
}

proof fn lemma_numbers_in_order(a: nat, b: nat, n: nat)
    requires
        a < b,
        b < crate::bytes::pow256(n),
    ensures
        lex_less(be_bytes(a, n), be_bytes(b, n)),
    decreases n,
{
    let m = (n - 1) as nat;
    crate::bytes::lemma_be_len(a, n);
    crate::bytes::lemma_be_len(b, n);
    crate::bytes::lemma_be_len(a / 256, m);
    crate::bytes::lemma_be_len(b / 256, m);
    let (x, y) = (be_bytes(a / 256, m), be_bytes(b / 256, m));
    let (la, lb) = (seq![(a % 256) as u8], seq![(b % 256) as u8]);
    assert(be_bytes(a, n) =~= x + la);
    assert(be_bytes(b, n) =~= y + lb);
    if a / 256 < b / 256 {
        lemma_numbers_in_order(a / 256, b / 256, m);
        lemma_lex_front(x, y, la, lb);
    } else {
        assert(a / 256 == b / 256);
        lemma_lex_prefix(x, la, lb);
        reveal_with_fuel(lex_less, 2);
    }
}

} // verus!
