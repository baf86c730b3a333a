//! The addresses of links, and the options in them.
use vstd::prelude::*;
use vstd::string::StringExecFns;
use crate::bytes::{to_vec, PublicKey};
use crate::texts::{
    duration_of, hex_decode, is_hex, key_of_hex, parse_duration_string, parse_key, parse_number,
    plain_number, text_is, DurationError,
};
use crate::wire::{array_of, lemma_array_of};

verus! {

/// How long a link waits at most before it is tried again, in seconds, unless told otherwise.
pub const DEFAULT_BACKOFF_LIMIT: u64 = 4096;

/// The least that this limit can be.
pub const MINIMUM_BACKOFF_LIMIT: u64 = 5;

/// The longest password of a link, in bytes.
pub const MAX_LINK_PASSWORD: usize = 64;

/// The parts of a link's address.
#[derive(Debug)]
pub struct LinkUri {
    pub scheme: String,
    pub host: Option<String>,
    pub port: Option<u16>,
    pub query: Vec<(String, String)>,
}

/// The view of the parts.
#[verifier::ext_equal]
pub struct UriView {
    pub scheme: Seq<char>,
    pub host: Option<Seq<char>>,
    pub port: Option<u16>,
    pub query: Seq<(Seq<char>, Seq<char>)>,
}

/// The view of an optional text.
pub open spec fn text_view(t: Option<String>) -> Option<Seq<char>> {
    match t {
        Some(s) => Some(s@),
        None => None,
    }
}

/// The view of pairs of texts.
pub open spec fn pairs_view(q: Seq<(String, String)>) -> Seq<(Seq<char>, Seq<char>)> {
    q.map_values(|p: (String, String)| (p.0@, p.1@))
}

impl View for LinkUri {
    type V = UriView;

    open spec fn view(&self) -> UriView {
        UriView {
            scheme: self.scheme@,
            host: text_view(self.host),
            port: self.port,
            query: pairs_view(self.query@),
        }
    }
}

/// The parts of the address that a text stands for.
pub uninterp spec fn uri_of(text: Seq<char>) -> Option<UriView>;

/// Calls `url::Url::parse` and, on the address, `scheme`, `host_str`, `port` and `query_pairs`:
/// whether the text is an address, and its parts, are a function of the text.
#[verifier::external_body]
pub(crate) fn split_uri(text: &str) -> (r: Option<LinkUri>)
    ensures
        match r {
            Some(u) => uri_of(text@) == Some(u@),
            None => uri_of(text@) is None,
        },
{
    let url = url::Url::parse(text).ok()?;
    Some(LinkUri {
        scheme: url.scheme().to_string(),
        host: url.host_str().map(|h| h.to_string()),
        port: url.port(),
        query: url.query_pairs().map(|(k, v)| (k.into_owned(), v.into_owned())).collect(),
    })
}

/// Whether a text is an IP address.
pub uninterp spec fn is_ip_text(text: Seq<char>) -> bool;

/// Calls `rustls::pki_types::IpAddr::try_from`: whether a text is an IPv4 or IPv6 address is a
/// function of the text.
#[verifier::external_body]
pub(crate) fn looks_like_ip(text: &str) -> (r: bool)
    ensures
        r == is_ip_text(text@),
{
    rustls::pki_types::IpAddr::try_from(text).is_ok()
}

/// Splits an address into its parts.
pub fn parse_uri(text: &str) -> (r: Option<LinkUri>)
    ensures
        match r {
            Some(u) => uri_of(text@) == Some(u@),
            None => uri_of(text@) is None,
        },
{
    split_uri(text)
}

/// The options of a link.
#[derive(Clone, Debug)]
pub struct LinkOptions {
    /// The keys of which the remote node must have one, if there are any.
    pub pinned_keys: Vec<PublicKey>,
    pub priority: u8,
    pub password: Vec<u8>,
    /// How long the link waits at most before it is tried again, in seconds.
    pub max_backoff: u64,
    /// The name of the remote host that TLS is told.
    pub tls_sni: Option<String>,
}

/// The view of options.
#[verifier::ext_equal]
pub struct OptionsView {
    pub pinned_keys: Seq<PublicKey>,
    pub priority: u8,
    pub password: Seq<u8>,
    pub max_backoff: u64,
    pub tls_sni: Option<Seq<char>>,
}

impl View for LinkOptions {
    type V = OptionsView;

    open spec fn view(&self) -> OptionsView {
        OptionsView {
            pinned_keys: self.pinned_keys@,
            priority: self.priority,
            password: self.password@,
            max_backoff: self.max_backoff,
            tls_sni: text_view(self.tls_sni),
        }
    }
}

/// The options of a link that has none.
pub open spec fn options_default() -> OptionsView {
    OptionsView {
        pinned_keys: Seq::empty(),
        priority: 0,
        password: Seq::empty(),
        max_backoff: DEFAULT_BACKOFF_LIMIT,
        tls_sni: None,
    }
}

impl Default for LinkOptions {
    fn default() -> (r: Self)
        ensures
            r@ == options_default(),
    {
        LinkOptions {
            pinned_keys: Vec::new(),
            priority: 0,
            password: Vec::new(),
            max_backoff: DEFAULT_BACKOFF_LIMIT,
            tls_sni: None,
        }
    }
}

/// What is wrong with the options of a link.
#[derive(Clone, Copy, Debug, PartialEq, Eq, Structural)]
pub enum OptionError {
    /// A pinned key is not hexadecimal.
    KeyHex,
    /// A pinned key has not thirty-two bytes.
    KeyLength,
    /// The priority is no number up to 255.
    Priority,
    /// The password is too long.
    PasswordTooLong,
    /// The limit to waiting is no duration.
    Backoff(DurationError),
    /// The limit to waiting is too short.
    BackoffTooShort,
}

/// The bytes of a text.
pub open spec fn utf8(text: Seq<char>) -> Seq<u8> {
    vstd::utf8::encode_utf8(text)
}

/// A host without the square brackets that an IPv6 address stands in.
pub open spec fn bare_host(host: Seq<char>) -> Seq<char> {
    if host.len() >= 2 && host[0] == '[' && host.last() == ']' {
        host.subrange(1, host.len() - 1)
    } else {
        host
    }
}

/// A host without the square brackets that an IPv6 address stands in.
pub fn without_brackets(host: &str) -> (r: &str)
    ensures
        r@ == bare_host(host@),
{
    let n: usize = host.unicode_len();
    if n >= 2 && host.get_char(0) == '[' && host.get_char(n - 1) == ']' {
        host.substring_char(1, n - 1)
    } else {
        host
    }
}

/// Whether a host is an IP address, in square brackets or not.
pub open spec fn is_ip_host(host: Seq<char>) -> bool {
    is_ip_text(bare_host(host))
}

/// The options with a parameter taken over. Parameters with other names are skipped, and so is a
/// name for TLS that is empty or an IP address.
pub open spec fn option_taken(o: OptionsView, name: Seq<char>, value: Seq<char>) -> Result<
    OptionsView,
    OptionError,
> {
    if name == "key"@ {
        if !is_hex(value) {
            Err(OptionError::KeyHex)
        } else {
            match key_of_hex(value) {
                None => Err(OptionError::KeyLength),
                Some(k) => Ok(
                    OptionsView { pinned_keys: o.pinned_keys.push(array_of::<32>(k)), ..o },
                ),
            }
        }
    } else if name == "priority"@ {
        match plain_number(value, 255) {
            None => Err(OptionError::Priority),
            Some(p) => Ok(OptionsView { priority: p as u8, ..o }),
        }
    } else if name == "password"@ {
        if utf8(value).len() > MAX_LINK_PASSWORD {
            Err(OptionError::PasswordTooLong)
        } else {
            Ok(OptionsView { password: utf8(value), ..o })
        }
    } else if name == "maxbackoff"@ {
        match duration_of(value) {
            Err(e) => Err(OptionError::Backoff(e)),
            Ok(d) => if d < MINIMUM_BACKOFF_LIMIT {
                Err(OptionError::BackoffTooShort)
            } else {
                Ok(OptionsView { max_backoff: d as u64, ..o })
            },
        }
    } else if name == "sni"@ {
        if value.len() > 0 && !is_ip_host(value) {
            Ok(OptionsView { tls_sni: Some(value), ..o })
        } else {
            Ok(o)
        }
    } else {
        Ok(o)
    }
}

/// The options with all parameters taken over, up to the first that is wrong.
pub open spec fn options_taken(query: Seq<(Seq<char>, Seq<char>)>) -> Result<
    OptionsView,
    OptionError,
>
    decreases query.len(),
{
    if query.len() == 0 {
        Ok(options_default())
    } else {
        match options_taken(query.drop_last()) {
            Err(e) => Err(e),
            Ok(o) => option_taken(o, query.last().0, query.last().1),
        }
    }
}

/// The options of an address. Without a name for TLS the host is taken, unless it is an IP
/// address.
pub open spec fn options_of(u: UriView) -> Result<OptionsView, OptionError> {
    match options_taken(u.query) {
        Err(e) => Err(e),
        Ok(o) => Ok(
            match (o.tls_sni, u.host) {
                (None, Some(h)) => if is_ip_host(h) {
                    o
                } else {
                    OptionsView { tls_sni: Some(h), ..o }
                },
                _ => o,
            },
        ),
    }
}

proof fn lemma_options_error(query: Seq<(Seq<char>, Seq<char>)>, n: int)
    requires
        0 <= n <= query.len(),
        options_taken(query.take(n)) is Err,
    ensures
        options_taken(query) == options_taken(query.take(n)),
    decreases query.len(),
{
    if n < query.len() {
        assert(query.drop_last().take(n) =~= query.take(n));
        lemma_options_error(query.drop_last(), n);
    } else {
        assert(query.take(n) =~= query);
    }
}

proof fn lemma_option_names()
    ensures
        "key"@ != "priority"@,
        "key"@ != "password"@,
        "key"@ != "maxbackoff"@,
        "key"@ != "sni"@,
        "priority"@ != "password"@,
        "priority"@ != "maxbackoff"@,
        "priority"@ != "sni"@,
        "password"@ != "maxbackoff"@,
        "password"@ != "sni"@,
        "maxbackoff"@ != "sni"@,
{
    reveal_strlit("key");
    reveal_strlit("priority");
    reveal_strlit("password");
    reveal_strlit("maxbackoff");
    reveal_strlit("sni");
    assert("key"@[0] == 'k');
    assert("sni"@[0] == 's');
    assert("key"@.len() == 3 && "priority"@.len() == 8 && "password"@.len() == 8
        && "maxbackoff"@.len() == 10 && "sni"@.len() == 3);
    assert("priority"@[1] == 'r');
    assert("password"@[1] == 'a');
}

impl LinkOptions {
    fn take_option(&mut self, name: &String, value: &String) -> (r: Result<(), OptionError>)
        ensures
            match option_taken(old(self)@, name@, value@) {
                Err(e) => r == Err::<(), OptionError>(e),
                Ok(o) => r is Ok && final(self)@ == o,
            },
    {
        proof {
            lemma_option_names();
        }
        if text_is(name, "key") {
            match parse_key(value.as_str()) {
                Some(k) => {
                    proof {
                        lemma_array_of(k);
                    }
                    self.pinned_keys.push(k);
                },
                None => {
                    return match hex_decode(value.as_str()) {
                        None => Err(OptionError::KeyHex),
                        Some(_) => Err(OptionError::KeyLength),
                    };
                },
            }
        } else if text_is(name, "priority") {
            match parse_number(value.as_str(), 255) {
                None => {
                    return Err(OptionError::Priority);
                },
                Some(p) => {
                    self.priority = p as u8;
                },
            }
        } else if text_is(name, "password") {
            let bytes = value.as_str().as_bytes();
            if bytes.len() > MAX_LINK_PASSWORD {
                return Err(OptionError::PasswordTooLong);
            }
            self.password = to_vec(bytes);
        } else if text_is(name, "maxbackoff") {
            match parse_duration_string(value.as_str()) {
                Err(e) => {
                    return Err(OptionError::Backoff(e));
                },
                Ok(d) => {
                    if d < MINIMUM_BACKOFF_LIMIT {
                        return Err(OptionError::BackoffTooShort);
                    }
                    self.max_backoff = d;
                },
            }
        } else if text_is(name, "sni") {
            if !value.as_str().is_empty() && !looks_like_ip(
                without_brackets(value.as_str()),
            ) {
                self.tls_sni = Some(value.clone());
            }
        }
        Ok(())
    }
}

impl LinkOptions {
    /// The name that TLS asks the other end for: the one that TLS is told, or else the host,
    /// without the square brackets of an IPv6 address.
    pub fn server_name(&self, host: &str) -> (r: String)
        ensures
            r@ == match self@.tls_sni {
                Some(name) => name,
                None => bare_host(host@),
            },
    {
        match &self.tls_sni {
            Some(name) => name.clone(),
            None => String::from_str(without_brackets(host)),
        }
    }
}

/// Reads the options of a link off its address.
pub fn parse_link_options(uri: &LinkUri) -> (r: Result<LinkOptions, OptionError>)
    ensures
        match options_of(uri@) {
            Err(e) => r == Err::<LinkOptions, OptionError>(e),
            Ok(o) => r matches Ok(v) && v@ == o,
        },
{
    let mut opts = LinkOptions::default();
    let mut i: usize = 0;
    let ghost q = pairs_view(uri.query@);
    assert(q.take(0) =~= Seq::empty());
    while i < uri.query.len()
        invariant
            i <= uri.query@.len(),
            q == pairs_view(uri.query@),
            options_taken(q.take(i as int)) == Ok::<OptionsView, OptionError>(opts@),
        decreases uri.query@.len() - i,
    {
        proof {
            assert(q.take(i + 1).drop_last() =~= q.take(i as int));
            assert(q.take(i + 1).last() == q[i as int]);
        }
        if let Err(e) = opts.take_option(&uri.query[i].0, &uri.query[i].1) {
            proof {
                lemma_options_error(q, i + 1);
            }
            return Err(e);
        }
        i = i + 1;
    }
    assert(q.take(i as int) =~= q);
    if opts.tls_sni.is_none() {
        if let Some(host) = &uri.host {
            if !looks_like_ip(without_brackets(host.as_str())) {
                opts.tls_sni = Some(host.clone());
            }
        }
    }
    Ok(opts)
}

/// An IP address is never the name that TLS is told, neither as the host of an address nor where
/// it is given as the name.
pub proof fn lemma_name_is_no_ip(u: UriView)
    requires
        options_of(u) is Ok,
    ensures
        options_of(u)->Ok_0.tls_sni matches Some(name) ==> !is_ip_host(name),
{
    lemma_taken_name_is_no_ip(u.query);
}

proof fn lemma_taken_name_is_no_ip(query: Seq<(Seq<char>, Seq<char>)>)
    requires
        options_taken(query) is Ok,
    ensures
        options_taken(query)->Ok_0.tls_sni matches Some(name) ==> !is_ip_host(name),
    decreases query.len(),
{
    if query.len() > 0 {
        lemma_taken_name_is_no_ip(query.drop_last());
    }
}

/// A password of options is never too long for the hash that it keys.
pub proof fn lemma_password_fits(query: Seq<(Seq<char>, Seq<char>)>)
    requires
        options_taken(query) is Ok,
    ensures
        options_taken(query)->Ok_0.password.len() <= crate::hashes::MAX_PASSWORD_LEN,
        options_taken(query)->Ok_0.max_backoff >= MINIMUM_BACKOFF_LIMIT,
    decreases query.len(),
{
    if query.len() > 0 {
        lemma_password_fits(query.drop_last());
    }
}

/// Every key that is given is pinned, in the order in which they are given, and no other.
pub proof fn lemma_every_key_is_pinned(query: Seq<(Seq<char>, Seq<char>)>, k: PublicKey)
    requires
        options_taken(query) is Ok,
    ensures
        options_taken(query)->Ok_0.pinned_keys.contains(k) <==> exists|i: int|
            0 <= i < query.len() && (#[trigger] query[i]).0 == "key"@ && key_of_hex(query[i].1) == Some(k@),
    decreases query.len(),
{
    if query.len() > 0 {
        let d = query.drop_last();
        lemma_every_key_is_pinned(d, k);
        lemma_option_names();
        let before = options_taken(d)->Ok_0.pinned_keys;
        let after = options_taken(query)->Ok_0.pinned_keys;
        let (name, value) = query.last();
        assert(query[query.len() - 1] == query.last());
        if name == "key"@ {
            let b = key_of_hex(value)->0;
            crate::wire::lemma_array_holds::<32>(b);
            lemma_array_of(k);
            assert(after == before.push(array_of::<32>(b)));
            assert(after[before.len() as int] == array_of::<32>(b));
        }
        if before.contains(k) {
            let j = choose|j: int| 0 <= j < before.len() && before[j] == k;
            assert(after[j] == k);
            let i = choose|i: int|
                0 <= i < d.len() && (#[trigger] d[i]).0 == "key"@ && key_of_hex(d[i].1) == Some(k@);
            assert(query[i] == d[i]);
        }
        if after.contains(k) && !before.contains(k) {
            let j = choose|j: int| 0 <= j < after.len() && after[j] == k;
            if j < before.len() {
                assert(before[j] == k);
            }
        }
        if exists|i: int|
            0 <= i < query.len() && (#[trigger] query[i]).0 == "key"@ && key_of_hex(query[i].1) == Some(k@) {
            let i = choose|i: int|
                0 <= i < query.len() && (#[trigger] query[i]).0 == "key"@ && key_of_hex(query[i].1)
                    == Some(k@);
            if i < d.len() {
                assert(d[i] == query[i]);
            }
        }
    }
}

/// Of parameters with one name the last counts: for the priority, the password and the limit to waiting.
/// Other parameters change nothing of them.
pub proof fn lemma_last_parameter_counts(query: Seq<(Seq<char>, Seq<char>)>, i: int)
    requires
        options_taken(query) is Ok,
        0 <= i < query.len(),
        forall|j: int| i < j < query.len() ==> (#[trigger] query[j]).0 != query[i].0,
    ensures
        ({
            let o = options_taken(query)->Ok_0;
            let (name, value) = query[i];
            &&& name == "priority"@ ==> plain_number(value, 255) == Some(o.priority as nat)
            &&& name == "password"@ ==> utf8(value) == o.password && o.password.len() <= 64
            &&& name == "maxbackoff"@ ==> duration_of(value) == Ok::<nat, DurationError>(
                o.max_backoff as nat,
            ) && o.max_backoff >= 5
            &&& name == "sni"@ && value.len() > 0 && !is_ip_host(value) ==> o.tls_sni == Some(value)
        }),
    decreases query.len(),
{
    let d = query.drop_last();
    lemma_option_names();
    assert(query[query.len() - 1] == query.last());
    if i < d.len() {
        assert(d[i] == query[i]);
        assert forall|j: int| i < j < d.len() implies (#[trigger] d[j]).0 != d[i].0 by {
            assert(query[j].0 != query[i].0);
        }
        lemma_last_parameter_counts(d, i);
        assert(query[query.len() - 1].0 != query[i].0);
    } else if query.last().0 == "maxbackoff"@ {
        lemma_duration_fits(query.last().1);
    }
}

proof fn lemma_duration_fits(s: Seq<char>)
    ensures
        duration_of(s) matches Ok(d) ==> d <= u64::MAX,
{
    lemma_scan_fits(s);
}

proof fn lemma_scan_fits(s: Seq<char>)
    ensures
        crate::texts::duration_scan(s) matches Ok((num, total)) ==> total <= u64::MAX,
    decreases s.len(),
{
    if s.len() > 0 {
        lemma_scan_fits(s.drop_last());
    }
}

/// What is not given is as it is unless told otherwise: priority zero, no password, no pinned key, and a
/// wait of up to 4096 seconds.
pub proof fn lemma_what_is_not_given(query: Seq<(Seq<char>, Seq<char>)>)
    requires
        options_taken(query) is Ok,
    ensures
        ({
            let o = options_taken(query)->Ok_0;
            &&& (forall|i: int| 0 <= i < query.len() ==> (#[trigger] query[i]).0 != "priority"@)
                ==> o.priority == 0
            &&& (forall|i: int| 0 <= i < query.len() ==> (#[trigger] query[i]).0 != "password"@)
                ==> o.password.len() == 0
            &&& (forall|i: int| 0 <= i < query.len() ==> (#[trigger] query[i]).0 != "maxbackoff"@)
                ==> o.max_backoff == 4096
            &&& (forall|i: int| 0 <= i < query.len() ==> (#[trigger] query[i]).0 != "key"@)
                ==> o.pinned_keys.len() == 0
        }),
    decreases query.len(),
{
    if query.len() > 0 {
        let d = query.drop_last();
        lemma_what_is_not_given(d);
        lemma_option_names();
        assert(query[query.len() - 1] == query.last());
        if forall|i: int| 0 <= i < query.len() ==> (#[trigger] query[i]).0 != "priority"@ {
            assert forall|i: int| 0 <= i < d.len() implies (#[trigger] d[i]).0 != "priority"@ by {
                assert(query[i].0 != "priority"@);
            }
            assert(query[query.len() - 1].0 != "priority"@);
        }
        if forall|i: int| 0 <= i < query.len() ==> (#[trigger] query[i]).0 != "password"@ {
            assert forall|i: int| 0 <= i < d.len() implies (#[trigger] d[i]).0 != "password"@ by {
                assert(query[i].0 != "password"@);
            }
            assert(query[query.len() - 1].0 != "password"@);
        }
        if forall|i: int| 0 <= i < query.len() ==> (#[trigger] query[i]).0 != "maxbackoff"@ {
            assert forall|i: int| 0 <= i < d.len() implies (#[trigger] d[i]).0 != "maxbackoff"@ by {
                assert(query[i].0 != "maxbackoff"@);
            }
            assert(query[query.len() - 1].0 != "maxbackoff"@);
        }
        if forall|i: int| 0 <= i < query.len() ==> (#[trigger] query[i]).0 != "key"@ {
            assert forall|i: int| 0 <= i < d.len() implies (#[trigger] d[i]).0 != "key"@ by {
                assert(query[i].0 != "key"@);
            }
            assert(query[query.len() - 1].0 != "key"@);
        }
    }
}

/// Options are refused only for a parameter that is wrong, and for the first such.
pub proof fn lemma_options_are_refused_for_a_reason(query: Seq<(Seq<char>, Seq<char>)>)
    ensures
        options_taken(query) matches Err(e) ==> exists|i: int|
            0 <= i < query.len() && {
                let (name, value) = #[trigger] query[i];
                match e {
                    OptionError::KeyHex => name == "key"@ && !is_hex(value),
                    OptionError::KeyLength => name == "key"@ && is_hex(value) && value.len() != 64,
                    OptionError::Priority => name == "priority"@ && plain_number(value, 255) is None,
                    OptionError::PasswordTooLong => name == "password"@ && utf8(value).len() > 64,
                    OptionError::Backoff(b) => name == "maxbackoff"@ && duration_of(value) == Err::<
                        nat,
                        DurationError,
                    >(b),
                    OptionError::BackoffTooShort => name == "maxbackoff"@ && (duration_of(
                        value,
                    ) matches Ok(d) && d < 5),
                }
            },
    decreases query.len(),
{
    if query.len() > 0 {
        let d = query.drop_last();
        lemma_options_are_refused_for_a_reason(d);
        lemma_option_names();
        assert(query[query.len() - 1] == query.last());
        if let Err(e) = options_taken(d) {
            let i = choose|i: int|
                0 <= i < d.len() && {
                    let (name, value) = #[trigger] d[i];
                    match e {
                        OptionError::KeyHex => name == "key"@ && !is_hex(value),
                        OptionError::KeyLength => name == "key"@ && is_hex(value) && value.len() != 64,
                        OptionError::Priority => name == "priority"@ && plain_number(value, 255) is None,
                        OptionError::PasswordTooLong => name == "password"@ && utf8(value).len() > 64,
                        OptionError::Backoff(b) => name == "maxbackoff"@ && duration_of(value) == Err::<
                            nat,
                            DurationError,
                        >(b),
                        OptionError::BackoffTooShort => name == "maxbackoff"@ && (duration_of(
                            value,
                        ) matches Ok(d) && d < 5),
                    }
                };
            assert(query[i] == d[i]);
        }
    }
}

/// The first bad parameter is told, whatever comes behind it: one that is bad behind good ones spoils
/// them all.
pub proof fn lemma_first_bad_option_is_told(
    query: Seq<(Seq<char>, Seq<char>)>,
    name: Seq<char>,
    value: Seq<char>,
    rest: Seq<(Seq<char>, Seq<char>)>,
)
    requires
        options_taken(query) is Ok,
    ensures
        ({
            let got = options_taken(query.push((name, value)) + rest);
            &&& name == "key"@ && !is_hex(value) ==> got == Err::<OptionsView, OptionError>(
                OptionError::KeyHex,
            )
            &&& name == "key"@ && is_hex(value) && value.len() != 64 ==> got == Err::<
                OptionsView,
                OptionError,
            >(OptionError::KeyLength)
            &&& name == "priority"@ && plain_number(value, 255) is None ==> got == Err::<
                OptionsView,
                OptionError,
            >(OptionError::Priority)
            &&& name == "password"@ && utf8(value).len() > 64 ==> got == Err::<
                OptionsView,
                OptionError,
            >(OptionError::PasswordTooLong)
            &&& name == "maxbackoff"@ ==> match duration_of(value) {
                Err(e) => got == Err::<OptionsView, OptionError>(OptionError::Backoff(e)),
                Ok(d) => d < 5 ==> got == Err::<OptionsView, OptionError>(
                    OptionError::BackoffTooShort,
                ),
            }
        }),
{
    lemma_option_names();
    let bad = query.push((name, value));
    assert(bad.drop_last() =~= query);
    assert(bad.last() == (name, value));
    let all = bad + rest;
    assert(all.take(bad.len() as int) =~= bad);
    if options_taken(bad) is Err {
        lemma_options_error(all, bad.len() as int);
    }
}

/// Where no name is given that could be asked for, the host is, unless it is an address.
pub proof fn lemma_name_from_the_host(u: UriView, host: Seq<char>)
    requires
        options_of(u) is Ok,
        u.host == Some(host),
        forall|i: int|
            0 <= i < u.query.len() ==> (#[trigger] u.query[i]).0 != "sni"@ || u.query[i].1.len() == 0
                || is_ip_host(u.query[i].1),
    ensures
        is_ip_host(host) ==> options_of(u)->Ok_0.tls_sni is None,
        !is_ip_host(host) ==> options_of(u)->Ok_0.tls_sni == Some(host),
{
    lemma_no_name_taken(u.query);
}

proof fn lemma_no_name_taken(query: Seq<(Seq<char>, Seq<char>)>)
    requires
        options_taken(query) is Ok,
        forall|i: int|
            0 <= i < query.len() ==> (#[trigger] query[i]).0 != "sni"@ || query[i].1.len() == 0
                || is_ip_host(query[i].1),
    ensures
        options_taken(query)->Ok_0.tls_sni is None,
    decreases query.len(),
{
    if query.len() > 0 {
        lemma_option_names();
        let d = query.drop_last();
        assert forall|i: int| 0 <= i < d.len() implies (#[trigger] d[i]).0 != "sni"@ || d[i].1.len()
            == 0 || is_ip_host(d[i].1) by {
            assert(d[i] == query[i]);
        }
        assert(query[query.len() - 1] == query.last());
        lemma_no_name_taken(d);
    }
}

} // verus!
