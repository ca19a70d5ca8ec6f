//! The client's connection settings.

use vstd::prelude::*;

verus! {

/// Where the client finds the server, and how long it waits for answers.
pub struct ClientConfig {
    pub url: String,
    /// Request timeout, in seconds.
    pub timeout: u64,
}

impl ClientConfig {
    /// Settings with the given server address and timeout.
    pub fn new(url: String, timeout: u64) -> (c: Self)
        ensures
            c.url == url,
            c.timeout == timeout,
    {
        ClientConfig { url, timeout }
    }

    /// Replaces the server address and the timeout.
    pub fn update(&mut self, url: String, timeout: u64)
        ensures
            final(self).url == url,
            final(self).timeout == timeout,
    {
        self.url = url;
        self.timeout = timeout;
    }
}

impl Default for ClientConfig {
    /// A server on this machine, port 8080, with a 30 second timeout.
    fn default() -> (c: Self)
        ensures
            c.url@ == "http://localhost:8080"@,
            c.timeout == 30,
    {
        ClientConfig { url: String::from_str("http://localhost:8080"), timeout: 30 }
    }
}

/// The first `n` characters of `s`, or all of it when shorter.
pub open spec fn prefix_of(s: Seq<char>, n: int) -> Seq<char> {
    if s.len() <= n { s } else { s.take(n) }
}

/// How the embedding provider is shown in logs: its model, and only the
/// first 12 characters of its URL and the first 4 of its key.
pub open spec fn provider_text(model: Seq<char>, url: Seq<char>, api_key: Seq<char>) -> Seq<char> {
    "Provider (Model: "@ + model + ", Url: "@ + prefix_of(url, 12) + "..., Key: "@ + prefix_of(api_key, 4) + "...)"@
}

/// The display text of an embedding provider (see `provider_text`).
pub fn provider_display(model: &str, url: &str, api_key: &str) -> (r: String)
    ensures
        r@ == provider_text(model@, url@, api_key@),
{
    let ul = url.unicode_len();
    let kl = api_key.unicode_len();
    let u = url.substring_char(0, if ul < 12 { ul } else { 12 });
    let k = api_key.substring_char(0, if kl < 4 { kl } else { 4 });
    proof {
        if ul <= 12 {
            assert(url@.subrange(0, ul as int) == url@);
        }
        if kl <= 4 {
            assert(api_key@.subrange(0, kl as int) == api_key@);
        }
    }
    let mut r = String::from_str("Provider (Model: ");
    r.append(model);
    r.append(", Url: ");
    r.append(u);
    r.append("..., Key: ");
    r.append(k);
    r.append("...)");
    r
}

} // verus!
