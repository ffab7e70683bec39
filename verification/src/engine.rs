//! The cache engine: every decision of the read-through protocol, of startup
//! reconciliation and of the purge, as verified functions over plain values.
//!
//! The embedding application performs the outside work — the HTTP fetch, the
//! file write, the directory scan and removal — and drives these functions
//! with the outcomes. A hit never reaches the network or the disk; on a miss
//! the engine derives the target path, and only a write reported successful
//! registers the entry. A transport failure degrades to returning the URL
//! itself; a response without a content type is fatal for that operation.

use vstd::prelude::*;
use vstd::string::StrSliceExecFns;
use vstd::string::StringExecFns;
use vstd::string::StringSliceAdditionalSpecFns;
use vstd::utf8::decode_utf8;
use vstd::utf8::encode_utf8;

use crate::codec::encode;
use crate::codec::decode;
use crate::codec::token_of;
use crate::codec::url_of;
use crate::registry::Registry;

verus! {

/// Fatal conditions of a cache operation. Transport failures are not here:
/// they are absorbed by falling back to the remote URL itself.
#[derive(Clone, Copy, Debug, PartialEq, Eq, Structural)]
pub enum CacheError {
    /// The fetched response declared no content type, so no extension could
    /// be derived; nothing is written and nothing is registered.
    MissingContentType,
    /// A directory or file operation failed; the entry is not registered.
    Storage,
}

/// The extension derived from a content type: the part after the last `/`,
/// or the whole string when it holds none (`image/png` gives `png`).
pub open spec fn ext_of(ct: Seq<char>) -> Seq<char>
    decreases ct.len(),
{
    if ct.len() == 0 {
        Seq::empty()
    } else if ct.last() == '/' {
        Seq::empty()
    } else {
        ext_of(ct.drop_last()).push(ct.last())
    }
}

/// The path a resource is cached under: the root, a separator, the URL's
/// token as the file stem, a dot, and the extension from the content type.
pub open spec fn cached_path(root: Seq<char>, url: Seq<char>, ct: Seq<char>) -> Seq<char> {
    root + seq!['/'] + decode_utf8(token_of(url)) + seq!['.'] + ext_of(ct)
}

/// With no `/` in sight the extension is the string itself.
proof fn lemma_ext_of_no_slash(s: Seq<char>)
    requires
        forall|k: int| 0 <= k < s.len() ==> s[k] != '/',
    ensures
        ext_of(s) == s,
    decreases s.len(),
{
    if s.len() == 0 {
        assert(ext_of(s) =~= s);
    } else {
        lemma_ext_of_no_slash(s.drop_last());
        assert(ext_of(s) =~= s);
    }
}

/// The extension is what follows the last `/`.
proof fn lemma_ext_of_after_slash(s: Seq<char>, p: int)
    requires
        0 <= p < s.len(),
        s[p] == '/',
        forall|k: int| p < k < s.len() ==> s[k] != '/',
    ensures
        ext_of(s) == s.subrange(p + 1, s.len() as int),
    decreases s.len(),
{
    if p == s.len() - 1 {
        assert(ext_of(s) =~= s.subrange(p + 1, s.len() as int));
    } else {
        lemma_ext_of_after_slash(s.drop_last(), p);
        assert(s.subrange(p + 1, s.len() as int) =~= s.drop_last().subrange(
            p + 1,
            s.len() - 1,
        ).push(s.last()));
        assert(ext_of(s) =~= s.subrange(p + 1, s.len() as int));
    }
}

/// Derives the file extension from a content type string.
pub fn extension_of(ct: &str) -> (r: String)
    ensures
        r@ == ext_of(ct@),
{
    let n: usize = ct.unicode_len();
    let mut from: usize = 0;
    let mut j: usize = 0;
    while j < n
        invariant
            j <= n,
            n == ct@.len(),
            from <= j,
            from == 0 ==> forall|k: int| 0 <= k < j ==> ct@[k] != '/',
            from > 0 ==> ct@[from - 1] == '/' && forall|k: int| from <= k < j ==> ct@[k] != '/',
        decreases n - j,
    {
        if ct.get_char(j) == '/' {
            from = j + 1;
        }
        j = j + 1;
    }
    proof {
        if from == 0 {
            lemma_ext_of_no_slash(ct@);
            assert(ct@.subrange(0, n as int) =~= ct@);
        } else {
            lemma_ext_of_after_slash(ct@, from - 1);
        }
    }
    let tail: &str = ct.substring_char(from, n);
    tail.to_owned()
}

/// What reconciliation makes of a directory listing: each entry whose stem
/// decodes to a URL is registered under that URL with its path; the rest are
/// skipped. Later entries win, as in a single left-to-right scan.
pub open spec fn reconciled(
    m: Map<Seq<char>, Seq<char>>,
    found: Seq<(String, String)>,
) -> Map<Seq<char>, Seq<char>>
    decreases found.len(),
{
    if found.len() == 0 {
        m
    } else {
        let rest = reconciled(m, found.drop_last());
        match url_of(encode_utf8(found.last().0@)) {
            Some(u) => rest.insert(u, found.last().1@),
            None => rest,
        }
    }
}

/// The cache engine: the root directory's path and the URL-to-path registry.
pub struct Cache {
    root: String,
    registry: Registry,
}

impl Cache {
    /// Well-formed: the registry keeps one path per URL.
    pub closed spec fn wf(&self) -> bool {
        self.registry.wf()
    }

    /// The registered entries, as a map from URL to local path.
    pub closed spec fn entries(&self) -> Map<Seq<char>, Seq<char>> {
        self.registry@
    }

    /// The cache root directory's path.
    pub closed spec fn root_spec(&self) -> Seq<char> {
        self.root@
    }

    /// A fresh engine over a cache root, with nothing registered yet.
    pub fn new(root: String) -> (c: Cache)
        ensures
            c.wf(),
            c.entries() == Map::<Seq<char>, Seq<char>>::empty(),
            c.root_spec() == root@,
    {
        Cache { root, registry: Registry::new() }
    }

    /// The number of registered URLs, for diagnostics.
    pub fn entry_count(&self) -> (n: usize)
        requires
            self.wf(),
        ensures
            n == self.entries().dom().len(),
    {
        self.registry.snapshot_len()
    }

    /// Step one of `cached(url)`: consult the registry. A hit returns the
    /// stored path snapshot — hits never touch the network or the disk.
    pub fn lookup(&self, url: &String) -> (r: Option<String>)
        requires
            self.wf(),
        ensures
            (r matches Some(p) ==> self.entries().contains_key(url@) && p@
                == self.entries()[url@]),
            (r is None ==> !self.entries().contains_key(url@)),
    {
        self.registry.get(url)
    }

    /// The fetch transport failed outright: degrade to passthrough. The
    /// caller receives exactly the original URL, and nothing is registered.
    pub fn on_transport_failure(&self, url: &String) -> (r: Result<String, CacheError>)
        ensures
            (r matches Ok(u) && u@ == url@),
    {
        Ok(url.clone())
    }

    /// A response arrived: decide what to do with it. Without a content type
    /// the operation is fatal; with one, the target path is derived from the
    /// URL's token and the content type's extension, for the caller to write
    /// the body to.
    pub fn on_response(&self, url: &String, content_type: &Option<String>) -> (r: Result<
        String,
        CacheError,
    >)
        ensures
            (content_type is None ==> r == Err::<String, CacheError>(
                CacheError::MissingContentType,
            )),
            (content_type matches Some(ct) ==> r matches Ok(p) && p@ == cached_path(
                self.root_spec(),
                url@,
                ct@,
            )),
    {
        match content_type {
            None => Err(CacheError::MissingContentType),
            Some(ct) => {
                let token: String = encode(url.as_str());
                let ext: String = extension_of(ct.as_str());
                let mut path: String = self.root.clone();
                path.append("/");
                path.append(token.as_str());
                path.append(".");
                path.append(ext.as_str());
                proof {
                    reveal_strlit("/");
                    reveal_strlit(".");
                    assert(("/")@ =~= seq!['/']);
                    assert((".")@ =~= seq!['.']);
                    assert(path@ =~= cached_path(self.root_spec(), url@, ct@));
                }
                Ok(path)
            },
        }
    }

    /// The body was written (or not): a successful write registers the entry
    /// and returns the path; a failed write registers nothing and is fatal.
    pub fn after_write(&mut self, url: &String, path: String, write_ok: bool) -> (r: Result<
        String,
        CacheError,
    >)
        requires
            old(self).wf(),
        ensures
            final(self).wf(),
            final(self).root_spec() == old(self).root_spec(),
            (write_ok ==> final(self).entries() == old(self).entries().insert(url@, path@) && (
            r matches Ok(p) && p@ == path@)),
            (!write_ok ==> final(self).entries() == old(self).entries() && r == Err::<
                String,
                CacheError,
            >(CacheError::Storage)),
    {
        if write_ok {
            let out: String = path.clone();
            self.registry.insert(url.clone(), path);
            Ok(out)
        } else {
            Err(CacheError::Storage)
        }
    }

    /// One directory entry at startup: a stem that decodes to a URL is
    /// registered under it; any other stem is skipped, never fatal.
    pub fn reconcile_entry(&mut self, stem: &str, path: String)
        requires
            old(self).wf(),
        ensures
            final(self).wf(),
            final(self).root_spec() == old(self).root_spec(),
            final(self).entries() == (match url_of(stem.spec_bytes()) {
                Some(u) => old(self).entries().insert(u, path@),
                None => old(self).entries(),
            }),
    {
        match decode(stem) {
            Ok(url) => {
                self.registry.insert(url, path);
            },
            Err(_) => {},
        }
    }

    /// Startup reconciliation: registers every directory entry whose stem
    /// decodes to a URL, and skips the rest.
    pub fn reconcile(&mut self, found: &Vec<(String, String)>)
        requires
            old(self).wf(),
        ensures
            final(self).wf(),
            final(self).root_spec() == old(self).root_spec(),
            final(self).entries() == reconciled(old(self).entries(), found@),
    {
        let n: usize = found.len();
        let mut j: usize = 0;
        proof {
            assert(found@.subrange(0, 0) =~= Seq::<(String, String)>::empty());
        }
        while j < n
            invariant
                j <= n,
                n == found@.len(),
                self.wf(),
                self.root_spec() == old(self).root_spec(),
                self.entries() == reconciled(old(self).entries(), found@.subrange(0, j as int)),
            decreases n - j,
        {
            let stem: &str = found[j].0.as_str();
            let path: String = found[j].1.clone();
            self.reconcile_entry(stem, path);
            proof {
                let pre = found@.subrange(0, j as int);
                let post = found@.subrange(0, j + 1 as int);
                assert(post.drop_last() =~= pre);
                assert(post.last() == found@[j as int]);
            }
            j = j + 1;
        }
        proof {
            assert(found@.subrange(0, n as int) =~= found@);
        }
    }

    /// The purge's registry side: only a deletion reported successful clears
    /// the registry; after a failed deletion every entry is kept, so files
    /// still on disk stay tracked.
    pub fn apply_purge(&mut self, removed: bool)
        requires
            old(self).wf(),
        ensures
            final(self).wf(),
            final(self).root_spec() == old(self).root_spec(),
            (removed ==> final(self).entries() == Map::<Seq<char>, Seq<char>>::empty()),
            (!removed ==> final(self).entries() == old(self).entries()),
    {
        if removed {
            self.registry.clear();
        }
    }
}

/// How many directory entries carry a stem that decodes to a URL.
pub open spec fn decodable_count(found: Seq<(String, String)>) -> nat
    decreases found.len(),
{
    if found.len() == 0 {
        0
    } else {
        decodable_count(found.drop_last()) + (if url_of(encode_utf8(found.last().0@)) is Some {
            1nat
        } else {
            0nat
        })
    }
}

/// The reconciled registry's domain stays finite.
proof fn lemma_reconciled_finite(m: Map<Seq<char>, Seq<char>>, found: Seq<(String, String)>)
    requires
        m.dom().finite(),
    ensures
        reconciled(m, found).dom().finite(),
    decreases found.len(),
{
    if found.len() == 0 {
    } else {
        lemma_reconciled_finite(m, found.drop_last());
    }
}

/// Reconciliation fidelity, membership: a URL is registered after
/// reconciliation exactly when it was registered before or some entry's stem
/// decodes to it. In particular, entries with undecodable stems leave no
/// trace, and none of them aborts the procedure.
pub proof fn lemma_reconciliation_membership(
    m: Map<Seq<char>, Seq<char>>,
    found: Seq<(String, String)>,
    u: Seq<char>,
)
    ensures
        reconciled(m, found).contains_key(u) <==> (m.contains_key(u) || exists|j: int|
            0 <= j < found.len() && url_of(encode_utf8((#[trigger] found[j]).0@)) == Some(u)),
    decreases found.len(),
{
    if found.len() == 0 {
    } else {
        let prefix = found.drop_last();
        lemma_reconciliation_membership(m, prefix, u);
        if url_of(encode_utf8(found.last().0@)) == Some(u) {
            assert(url_of(encode_utf8((found[found.len() - 1]).0@)) == Some(u));
        } else {
            if reconciled(m, found).contains_key(u) && !m.contains_key(u) {
                let j = choose|j: int|
                    0 <= j < prefix.len() && url_of(encode_utf8((#[trigger] prefix[j]).0@)) == Some(
                        u,
                    );
                assert(url_of(encode_utf8((found[j]).0@)) == Some(u));
            }
            if exists|j: int|
                0 <= j < found.len() && url_of(encode_utf8((#[trigger] found[j]).0@)) == Some(u) {
                let j = choose|j: int|
                    0 <= j < found.len() && url_of(encode_utf8((#[trigger] found[j]).0@)) == Some(
                        u,
                    );
                assert(j < prefix.len());
                assert(url_of(encode_utf8((prefix[j]).0@)) == Some(u));
            }
        }
    }
}

/// Reconciliation fidelity, paths: an entry whose stem decodes to a URL that
/// no later entry repeats ends up registered under that URL with its own path.
pub proof fn lemma_reconciliation_path(
    m: Map<Seq<char>, Seq<char>>,
    found: Seq<(String, String)>,
    j: int,
)
    requires
        0 <= j < found.len(),
        url_of(encode_utf8(found[j].0@)) is Some,
        forall|l: int|
            j < l < found.len() ==> url_of(encode_utf8((#[trigger] found[l]).0@)) != url_of(
                encode_utf8(found[j].0@),
            ),
    ensures
        reconciled(m, found).contains_key(url_of(encode_utf8(found[j].0@))->Some_0),
        reconciled(m, found)[url_of(encode_utf8(found[j].0@))->Some_0] == found[j].1@,
    decreases found.len(),
{
    if j == found.len() - 1 {
    } else {
        assert(found.drop_last()[j] == found[j]);
        lemma_reconciliation_path(m, found.drop_last(), j);
        assert(url_of(encode_utf8((found[found.len() - 1]).0@)) != url_of(
            encode_utf8(found[j].0@),
        ));
    }
}

/// Reconciliation fidelity, count: starting from an empty registry, when the
/// decodable stems name pairwise distinct URLs, the registry ends up with
/// exactly one entry per decodable stem; the undecodable ones add nothing.
pub proof fn lemma_reconciliation_count(found: Seq<(String, String)>)
    requires
        forall|j: int, l: int|
            #![trigger found[j], found[l]]
            0 <= j < l < found.len() && url_of(encode_utf8(found[j].0@)) is Some && url_of(
                encode_utf8(found[l].0@),
            ) is Some ==> url_of(encode_utf8(found[j].0@)) != url_of(encode_utf8(found[l].0@)),
    ensures
        reconciled(Map::<Seq<char>, Seq<char>>::empty(), found).dom().len() == decodable_count(
            found,
        ),
    decreases found.len(),
{
    let m = Map::<Seq<char>, Seq<char>>::empty();
    if found.len() == 0 {
        assert(reconciled(m, found).dom() =~= Set::<Seq<char>>::empty());
    } else {
        let prefix = found.drop_last();
        assert forall|j: int, l: int|
            #![trigger prefix[j], prefix[l]]
            0 <= j < l < prefix.len() && url_of(encode_utf8(prefix[j].0@)) is Some && url_of(
                encode_utf8(prefix[l].0@),
            ) is Some implies url_of(encode_utf8(prefix[j].0@)) != url_of(
            encode_utf8(prefix[l].0@),
        ) by {
            assert(found[j] == prefix[j]);
            assert(found[l] == prefix[l]);
        }
        lemma_reconciliation_count(prefix);
        lemma_reconciled_finite(m, prefix);
        if url_of(encode_utf8(found.last().0@)) is Some {
            let u = url_of(encode_utf8(found.last().0@))->Some_0;
            lemma_reconciliation_membership(m, prefix, u);
            assert forall|j: int|
                0 <= j < prefix.len() implies url_of(encode_utf8((#[trigger] prefix[j]).0@))
                != Some(u) by {
                assert(found[j] == prefix[j]);
                assert(url_of(encode_utf8(found[found.len() - 1].0@)) == Some(u));
            }
            assert(!reconciled(m, prefix).contains_key(u));
            assert(reconciled(m, found).dom() =~= reconciled(m, prefix).dom().insert(u));
        }
    }
}

/// Cache-hit idempotence: once a store for a URL succeeded, a lookup of that
/// URL hits and yields the very path that was stored — so a repeated
/// `cached(url)` returns the same path and never reaches the fetch step.
pub proof fn lemma_hit_after_store(m: Map<Seq<char>, Seq<char>>, url: Seq<char>, path: Seq<char>)
    ensures
        m.insert(url, path).contains_key(url),
        m.insert(url, path)[url] == path,
{
}

} // verus!
