//! Admin credentials: a password and its one-way digest. The digest is
//! always recomputed from the password in memory — it is never read from
//! storage — so the two can never drift apart.

use vstd::prelude::*;

verus! {

/// The hex digest that the SHA-256 primitive computes for a given text.
pub uninterp spec fn digest_of(s: Seq<char>) -> Seq<char>;

/// Relies on sha256::digest (its `&str` impl): hex digest of the UTF-8 bytes
/// of `s`, a function of the characters of `s` alone.
#[verifier::external_body]
fn sha256_hex(s: &str) -> (r: String)
    ensures
        r@ == digest_of(s@),
{
    sha256::digest(s)
}

/// The admin password and its digest.
pub struct Credentials {
    password: String,
    hash: String,
}

impl Credentials {
    pub closed spec fn password_view(self) -> Seq<char> {
        self.password@
    }

    pub closed spec fn hash_view(self) -> Seq<char> {
        self.hash@
    }

    /// The credentials invariant: the stored hash is exactly the digest of
    /// the stored password.
    pub open spec fn wf(self) -> bool {
        self.hash_view() == digest_of(self.password_view())
    }

    /// Builds credentials from a password read from durable storage. The
    /// hash is computed here, never deserialized, which establishes `wf`.
    pub fn new(password: String) -> (c: Credentials)
        ensures
            c.wf(),
            c.password_view() == password@,
    {
        let hash = sha256_hex(password.as_str());
        Credentials { password, hash }
    }

    /// The plaintext password, as persistence writes it back to storage.
    pub fn password(&self) -> (r: &String)
        ensures
            r@ == self.password_view(),
    {
        &self.password
    }

    /// The current digest.
    pub fn hash(&self) -> (r: &String)
        ensures
            r@ == self.hash_view(),
    {
        &self.hash
    }

    /// Replaces the password and immediately recomputes the hash.
    pub fn set_password(&mut self, password: String)
        ensures
            final(self).wf(),
            final(self).password_view() == password@,
            final(self).hash_view() == digest_of(password@),
    {
        self.password = password;
        self.set_hash();
    }

    /// Recomputes the hash from the current password.
    pub fn set_hash(&mut self)
        ensures
            final(self).wf(),
            final(self).password_view() == old(self).password_view(),
    {
        self.hash = sha256_hex(self.password.as_str());
    }
}

/// The admin configuration record.
pub struct AdminConfig {
    pub credentials: Credentials,
}

impl AdminConfig {
    pub open spec fn wf(self) -> bool {
        self.credentials.wf()
    }

    pub fn new(credentials: Credentials) -> (c: AdminConfig)
        ensures
            c.credentials == credentials,
    {
        AdminConfig { credentials }
    }

    /// Compares a client-supplied digest against the stored credential hash.
    pub fn check_admin_hash(&self, password_hash: String) -> (r: bool)
        ensures
            r == (password_hash@ == self.credentials.hash_view()),
    {
        password_hash.eq(&self.credentials.hash)
    }
}

/// After the password is set to some value `v`, the stored hash equals
/// `digest_of(v)`, so a supplied digest passes the check exactly when it is
/// `digest_of(v)`; in particular any supplied digest other than
/// `digest_of(v)` is refused. (That the digest of a *different text* is
/// such a different digest is collision-freeness of SHA-256 itself, which
/// no contract here states; the premise below starts from the differing
/// digests.)
pub proof fn lemma_check_accepts_exactly_the_digest(c: Credentials, supplied: Seq<char>)
    requires
        c.wf(),
    ensures
        (supplied == c.hash_view()) <==> (supplied == digest_of(c.password_view())),
        supplied != digest_of(c.password_view()) ==> supplied != c.hash_view(),
{
}

} // verus!
