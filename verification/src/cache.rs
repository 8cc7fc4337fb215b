use vstd::prelude::*;
use vstd::string::*;

use crate::error::AppError;

verus! {

/// The live snapshot cache for a single instance: one writer replaces the whole snapshot,
/// readers see the latest one.
pub struct MemoryCache<S> {
    current: Option<S>,
}

impl<S> MemoryCache<S> {
    /// The snapshot a read returns: the latest one written, if any.
    pub closed spec fn latest(&self) -> Option<S> {
        self.current
    }

    /// The cache after `snap` is written.
    pub closed spec fn written(self, snap: S) -> Self {
        MemoryCache { current: Some(snap) }
    }

    /// An empty cache: reads return nothing until the first write.
    pub fn new() -> (c: Self)
        ensures
            c.latest() is None,
    {
        MemoryCache { current: None }
    }

    /// The most recent snapshot, or `None` before the first write.
    pub fn get_snapshot(&self) -> (res: Option<&S>)
        ensures
            match res {
                Some(s) => self.latest() == Some(*s),
                None => self.latest() is None,
            },
    {
        match &self.current {
            Some(s) => Some(s),
            None => None,
        }
    }

    /// Replaces the cached snapshot as a whole.
    pub fn put_snapshot(&mut self, snap: S)
        ensures
            *final(self) == old(self).written(snap),
    {
        self.current = Some(snap);
    }

    /// A read after a write returns the snapshot written, and a later write replaces an
    /// earlier one entirely.
    pub proof fn lemma_read_after_write(self, a: S, b: S)
        ensures
            self.written(a).latest() == Some(a),
            self.written(a).written(b).latest() == Some(b),
    {
    }
}

/// What a read endpoint answers for a cache read: the snapshot, or `NoSnapshot`.
pub open spec fn served<S>(snap: Option<S>) -> Result<S, AppError> {
    match snap {
        Some(s) => Ok(s),
        None => Err(AppError::NoSnapshot),
    }
}

/// The snapshot a read endpoint serves, or `NoSnapshot` before the first successful poll.
pub fn require_snapshot<S>(snap: Option<S>) -> (res: Result<S, AppError>)
    ensures
        res == served(snap),
{
    match snap {
        Some(s) => Ok(s),
        None => Err(AppError::NoSnapshot),
    }
}

/// A stored snapshot is served as it is; with none stored the answer is `NoSnapshot`.
pub proof fn lemma_served<S>(snap: Option<S>)
    ensures
        snap matches Some(s) ==> served(snap) == Ok::<S, AppError>(s),
        snap is None ==> served(snap) == Err::<S, AppError>(AppError::NoSnapshot),
{
}

/// Before the first snapshot is written, every read endpoint answers 503.
pub proof fn lemma_unavailable_until_first_write<S>(c: MemoryCache<S>)
    requires
        c.latest() is None,
    ensures
        served(c.latest()) == Err::<S, AppError>(AppError::NoSnapshot),
        AppError::NoSnapshot.http_status() == 503,
{
}

/// The optional shared snapshot cache for multi-replica deployments, selected when
/// `REDIS_URL` is set. Reads and writes against Redis are not implemented yet.
pub struct RedisCache {
    redis_url: String,
}

impl RedisCache {
    /// The URL of the Redis server.
    pub closed spec fn url(&self) -> Seq<char> {
        self.redis_url@
    }

    /// A cache bound to the Redis server at `redis_url`.
    pub fn new(redis_url: &str) -> (c: RedisCache)
        ensures
            c.url() == redis_url@,
    {
        RedisCache { redis_url: String::from_str(redis_url) }
    }

    /// The URL of the Redis server.
    pub fn redis_url(&self) -> (res: &str)
        ensures
            res@ == self.url(),
    {
        self.redis_url.as_str()
    }
}

} // verus!
