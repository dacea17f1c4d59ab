use crate::chunk::Chunk;
use crate::content_id::{same_contents, ContentId};
use crate::error::Error;
use crate::header::ObjectHandle;
use crate::repo::ObjectRepo;
use crate::state::{ObjectState, SeekFrom};
use crate::store::BlobStore;
use vstd::prelude::*;
use vstd::string::StringSliceAdditionalSpecFns;

verus! {

/// A read-write view of data in a repository.
///
/// An `Object` holds the handle of an object and the state of the view: the
/// seek position, the payload of the chunk that was read last, and what was
/// written since the last flush. Each method that reaches into the
/// repository takes it as an argument.
///
/// Written data changes the object with the next flush. Reading, seeking and
/// truncating flush first. Unflushed data is not accounted for by `size`,
/// `content_id`, `compare_contents` and `verify`.
pub struct Object {
    /// The handle of the object, as this view has made it.
    pub handle: ObjectHandle,
    /// The state of the view.
    pub state: ObjectState,
}

impl Object {
    /// The invariant of a view.
    pub open spec fn wf(&self) -> bool {
        self.handle.wf() && self.state.wf(self.handle.chunks@)
    }

    /// Whether the view can work on `repo`.
    pub open spec fn attached<S: BlobStore>(&self, repo: &ObjectRepo<S>) -> bool {
        self.state.attached(repo)
    }

    /// Whether `post`, a view on `post_repo`, can follow `pre` on `pre_repo`:
    /// both are in order, the view is of the same object, and the repository
    /// has kept what it had stored.
    pub open spec fn follows<S: BlobStore>(
        pre: &Object,
        post: &Object,
        pre_repo: &ObjectRepo<S>,
        post_repo: &ObjectRepo<S>,
    ) -> bool {
        &&& post.wf()
        &&& post.attached(post_repo)
        &&& post_repo.wf()
        &&& pre_repo.kept_by(post_repo)
        &&& post.handle.repo_id == pre.handle.repo_id
        &&& post.handle.instance_id == pre.handle.instance_id
        &&& post.handle.handle_id == pre.handle.handle_id
    }

    /// A view of the object with the given handle, at offset zero and with
    /// nothing written.
    pub fn new<S: BlobStore>(repo: &ObjectRepo<S>, handle: ObjectHandle) -> (object: Object)
        requires
            repo.wf(),
            handle.wf(),
        ensures
            object.wf(),
            object.attached(repo),
            object.handle == handle,
            object.state.position == 0,
            !object.state.needs_flush,
            object.state.buffered_chunk is None,
    {
        Object { handle, state: ObjectState::new(repo.header.config.chunking) }
    }

    /// Return the size of the object in bytes.
    pub fn size(&self) -> (size: u64)
        ensures
            size == self.handle.size,
    {
        self.handle.size
    }

    /// The seek position.
    pub fn position(&self) -> (position: u64)
        ensures
            position == self.state.position,
    {
        self.state.position
    }

    /// Return a `ContentId` representing the contents of this object.
    pub fn content_id(&self) -> (id: ContentId)
        ensures
            id.repo_id == self.handle.repo_id,
            id.size == self.handle.size,
            id.chunks@ == self.handle.chunks@,
    {
        self.handle.content_id()
    }

    /// Return whether this object has the same contents as `other`.
    pub fn compare_contents(&self, other: &[u8]) -> (same: bool)
        ensures
            same == same_contents(self.handle.chunks@, other@),
    {
        self.handle.compare_contents(other)
    }

    /// Verify the integrity of the data in this object.
    ///
    /// This returns `true` if the object is valid and `false` if it is
    /// corrupt: if the first chunk that cannot be read, is invalid.
    pub fn verify<S: BlobStore>(&mut self, repo: &ObjectRepo<S>) -> (result: Result<bool, Error>)
        requires
            repo.wf(),
        ensures
            *final(self) == *old(self),
            result == repo.verify_outcome(old(self).handle.chunks@) || (result == Err::<bool, Error>(
                Error::Store,
            ) && !repo.reliable()),
    {
        repo.verify_chunks(&self.handle.chunks)
    }

    /// Whether a flush that ends with `result` makes `post` on `post_repo` of
    /// `pre` on `pre_repo`.
    pub open spec fn flushes_to<S: BlobStore>(
        pre: &Object,
        post: &Object,
        pre_repo: &ObjectRepo<S>,
        post_repo: &ObjectRepo<S>,
        result: Result<(), Error>,
    ) -> bool {
        &&& Self::follows(pre, post, pre_repo, post_repo)
        &&& post.state.position == pre.state.position
        &&& ObjectRepo::stays_sound(
            pre_repo,
            post_repo,
            pre.state.chunker.config.split(pre.state.flush_bytes(pre.handle.chunks@, pre_repo)).to_set(),
        )
        &&& ObjectRepo::stores_at_most(
            pre_repo,
            post_repo,
            pre.state.chunker.config.split(pre.state.flush_bytes(pre.handle.chunks@, pre_repo)).skip(
                pre.state.new_chunks@.len() as int,
            ),
        )
        &&& ObjectState::flush_outcome(
            &pre.state,
            &post.state,
            &pre.handle,
            &post.handle,
            pre_repo,
            post_repo,
            result,
        )
    }

    /// Puts what was written since the last flush in place, as
    /// `ObjectState::flush` says.
    pub fn flush<S: BlobStore>(&mut self, repo: &mut ObjectRepo<S>) -> (result: Result<(), Error>)
        requires
            old(self).wf(),
            old(self).attached(old(repo)),
            old(repo).wf(),
        ensures
            Self::flushes_to(old(self), final(self), old(repo), final(repo), result),
    {
        self.state.flush(&mut self.handle, repo)
    }

    /// Whether a write of `bytes` that ends with `result` makes `post` on
    /// `post_repo` of `pre` on `pre_repo`.
    pub open spec fn writes_to<S: BlobStore>(
        pre: &Object,
        post: &Object,
        pre_repo: &ObjectRepo<S>,
        post_repo: &ObjectRepo<S>,
        bytes: Seq<u8>,
        result: Result<usize, Error>,
    ) -> bool {
        &&& Self::follows(pre, post, pre_repo, post_repo)
        &&& post.handle == pre.handle
        &&& ObjectRepo::same_objects(pre_repo, post_repo)
        &&& ObjectRepo::stays_sound(
            pre_repo,
            post_repo,
            pre.state.chunker.config.scan(
                Seq::empty(),
                pre.state.staged_with(pre.handle.chunks@, pre_repo, bytes),
            ).0.to_set(),
        )
        &&& ObjectRepo::stores_at_most(
            pre_repo,
            post_repo,
            pre.state.chunker.config.scan(
                Seq::empty(),
                pre.state.staged_with(pre.handle.chunks@, pre_repo, bytes),
            ).0.skip(pre.state.new_chunks@.len() as int),
        )
        &&& ObjectState::write_outcome(
            &pre.state,
            &post.state,
            &pre.handle,
            pre_repo,
            post_repo,
            bytes,
            result,
        )
    }

    /// Writes `bytes` at the seek position, as `ObjectState::write` says.
    pub fn write<S: BlobStore>(&mut self, repo: &mut ObjectRepo<S>, bytes: &[u8]) -> (result: Result<
        usize,
        Error,
    >)
        requires
            old(self).wf(),
            old(self).attached(old(repo)),
            old(repo).wf(),
        ensures
            Self::writes_to(old(self), final(self), old(repo), final(repo), bytes@, result),
    {
        self.state.write(&self.handle, repo, bytes)
    }

    /// Whether seeking makes `post` of `pre`, a view without staged writes:
    /// the position becomes what `SeekFrom::resolve` gives, and stays where
    /// that is an error.
    pub open spec fn sought(pre: &Object, post: &Object, to: SeekFrom, result: Result<u64, Error>) -> bool {
        &&& result == to.resolve(pre.handle.size, pre.state.position)
        &&& post.handle == pre.handle
        &&& post.state.position == match result {
            Ok(position) => position,
            Err(_) => pre.state.position,
        }
        &&& post.state.chunker == pre.state.chunker
        &&& post.state.new_chunks == pre.state.new_chunks
        &&& post.state.start_location == pre.state.start_location
        &&& post.state.needs_flush == pre.state.needs_flush
        &&& post.state.buffered_chunk == pre.state.buffered_chunk
        &&& post.state.read_buffer == pre.state.read_buffer
        &&& post.state.staged == pre.state.staged
    }

    /// Whether a seek that ends with `result` makes `post` on `post_repo` of
    /// `pre` on `pre_repo`: the view is flushed, and then the position is
    /// moved; where the flush fails, that is all that has happened.
    pub open spec fn seeks_to<S: BlobStore>(
        pre: &Object,
        post: &Object,
        pre_repo: &ObjectRepo<S>,
        post_repo: &ObjectRepo<S>,
        to: SeekFrom,
        result: Result<u64, Error>,
    ) -> bool {
        &&& Self::follows(pre, post, pre_repo, post_repo)
        &&& exists|mid: Object, flushed: Result<(), Error>|
            {
                &&& #[trigger] Self::flushes_to(pre, &mid, pre_repo, post_repo, flushed)
                &&& match flushed {
                    Err(error) => result == Err::<u64, Error>(error) && *post == mid,
                    Ok(()) => Self::sought(&mid, post, to, result),
                }
            }
    }

    /// Flushes, and then moves the seek position as `SeekFrom::resolve` says.
    /// Where the flush fails, its error is returned and the position stays.
    pub fn seek<S: BlobStore>(&mut self, repo: &mut ObjectRepo<S>, to: SeekFrom) -> (result: Result<
        u64,
        Error,
    >)
        requires
            old(self).wf(),
            old(self).attached(old(repo)),
            old(repo).wf(),
        ensures
            Self::seeks_to(old(self), final(self), old(repo), final(repo), to, result),
    {
        match self.flush(repo) {
            Ok(()) => {},
            Err(error) => {
                assert(Self::flushes_to(
                    old(self),
                    self,
                    old(repo),
                    repo,
                    Err::<(), Error>(error),
                ));
                return Err(error);
            },
        }
        let ghost mid = *self;
        let result = self.state.seek(&self.handle, to);
        assert(Self::flushes_to(old(self), &mid, old(repo), repo, Ok::<(), Error>(())));
        assert(Self::sought(&mid, self, to, result));
        result
    }

    /// Flushes, and then reads at most `limit` bytes at the seek position, as
    /// `ObjectState::read` says. Where the flush fails, its error is returned.
    pub fn read<S: BlobStore>(&mut self, repo: &mut ObjectRepo<S>, limit: usize) -> (result: Result<
        Vec<u8>,
        Error,
    >)
        requires
            old(self).wf(),
            old(self).attached(old(repo)),
            old(repo).wf(),
        ensures
            Self::follows(old(self), final(self), old(repo), final(repo)),
            exists|mid: Object, flushed: Result<(), Error>|
                {
                    &&& #[trigger] Self::flushes_to(old(self), &mid, old(repo), final(repo), flushed)
                    &&& match flushed {
                        Err(error) => result == Err::<Vec<u8>, Error>(error) && *final(self) == mid,
                        Ok(()) => {
                            &&& final(self).handle == mid.handle
                            &&& ObjectState::read_outcome(
                                &mid.state,
                                &final(self).state,
                                &mid.handle,
                                final(repo),
                                limit,
                                result,
                            )
                        },
                    }
                },
    {
        match self.flush(repo) {
            Ok(()) => {},
            Err(error) => {
                assert(Self::flushes_to(
                    old(self),
                    self,
                    old(repo),
                    repo,
                    Err::<(), Error>(error),
                ));
                return Err(error);
            },
        }
        let ghost mid = *self;
        let result = self.state.read(&self.handle, repo, limit);
        assert(Self::flushes_to(old(self), &mid, old(repo), repo, Ok::<(), Error>(())));
        result
    }

    /// Whether cutting to `length` bytes, ending with `result`, makes `post`
    /// on `post_repo` of `pre`, a view without staged writes on `pre_repo`.
    pub open spec fn cuts_to<S: BlobStore>(
        pre: &Object,
        post: &Object,
        pre_repo: &ObjectRepo<S>,
        post_repo: &ObjectRepo<S>,
        length: u64,
        result: Result<(), Error>,
    ) -> bool {
        &&& Self::follows(pre, post, pre_repo, post_repo)
        &&& ObjectRepo::stays_sound(
            pre_repo,
            post_repo,
            set![ObjectState::cut_rest(pre.handle.chunks@, pre_repo, length)],
        )
        &&& ObjectRepo::stores_at_most(
            pre_repo,
            post_repo,
            seq![ObjectState::cut_rest(pre.handle.chunks@, pre_repo, length)],
        )
        &&& ObjectState::cut_outcome(
            &pre.state,
            &post.state,
            &pre.handle,
            &post.handle,
            pre_repo,
            post_repo,
            length,
            result,
        )
    }

    /// Truncate the object to the given `length`.
    ///
    /// Flushes first. If the given `length` is greater than or equal to the
    /// size of the object, nothing more is done. Else the object is cut as
    /// `ObjectState::cut` says; if the seek position is past the point which
    /// the object is truncated to, it is moved to the new end of the object.
    #[verifier::rlimit(50)]
    pub fn truncate<S: BlobStore>(&mut self, repo: &mut ObjectRepo<S>, length: u64) -> (result:
        Result<(), Error>)
        requires
            old(self).wf(),
            old(self).attached(old(repo)),
            old(repo).wf(),
        ensures
            Self::follows(old(self), final(self), old(repo), final(repo)),
            exists|mid: Object, mid_repo: ObjectRepo<S>, flushed: Result<(), Error>|
                {
                    &&& #[trigger] Self::flushes_to(old(self), &mid, old(repo), &mid_repo, flushed)
                    &&& match flushed {
                        Err(error) => result == Err::<(), Error>(error) && *final(self) == mid
                            && *final(repo) == mid_repo,
                        Ok(()) => Self::cuts_to(&mid, final(self), &mid_repo, final(repo), length, result),
                    }
                },
    {
        match self.flush(repo) {
            Ok(()) => {},
            Err(error) => {
                assert(Self::flushes_to(
                    old(self),
                    self,
                    old(repo),
                    repo,
                    Err::<(), Error>(error),
                ));
                return Err(error);
            },
        }
        let ghost mid = *self;
        let ghost mid_repo = *repo;
        let result = self.state.cut(&mut self.handle, repo, length);
        proof {
            assert(Self::flushes_to(old(self), &mid, old(repo), &mid_repo, Ok::<(), Error>(())));
            ObjectRepo::lemma_kept_by_transitive(old(repo), &mid_repo, repo);
            assert(Self::cuts_to(&mid, self, &mid_repo, repo, length, result));
        }
        result
    }

    /// Flushes, and then reads the whole of the object from its start, and
    /// leaves the position at its end.
    #[verifier::rlimit(50)]
    pub fn read_all<S: BlobStore>(&mut self, repo: &mut ObjectRepo<S>) -> (result: Result<
        Vec<u8>,
        Error,
    >)
        requires
            old(self).wf(),
            old(self).attached(old(repo)),
            old(repo).wf(),
        ensures
            Self::follows(old(self), final(self), old(repo), final(repo)),
            exists|mid: Object, flushed: Result<(), Error>|
                {
                    &&& #[trigger] Self::flushes_to(old(self), &mid, old(repo), final(repo), flushed)
                    &&& match flushed {
                        Err(error) => result == Err::<Vec<u8>, Error>(error) && *final(self) == mid,
                        Ok(()) => {
                            &&& final(self).handle == mid.handle
                            &&& match result {
                                Ok(bytes) => bytes@ == final(repo).content(mid.handle.chunks@)
                                    && final(self).state.position == mid.handle.size,
                                Err(error) => exists|i: int|
                                    0 <= i < mid.handle.chunks@.len() && (final(repo).read_outcome(
                                        #[trigger] mid.handle.chunks@[i],
                                    ) == Err::<Seq<u8>, Error>(error) || (error == Error::Store
                                        && !final(repo).reliable())),
                            }
                        },
                    }
                },
    {
        match self.flush(repo) {
            Ok(()) => {},
            Err(error) => {
                assert(Self::flushes_to(
                    old(self),
                    self,
                    old(repo),
                    repo,
                    Err::<(), Error>(error),
                ));
                return Err(error);
            },
        }
        let ghost mid = *self;
        self.state.position = 0;
        let count = self.handle.chunks.len();
        let result = self.state.read_to_end(&self.handle, repo);
        proof {
            assert(Self::flushes_to(old(self), &mid, old(repo), repo, Ok::<(), Error>(())));
            repo.lemma_content_from_chunk(self.handle.chunks@, 0);
            assert(self.handle.chunks@.take(0) =~= Seq::<Chunk>::empty());
            assert(self.handle.chunks@.skip(0) =~= self.handle.chunks@);
        }
        result
    }
}

impl<S: BlobStore> ObjectRepo<S> {
    /// Adds an empty object with the given name to the instance and returns a
    /// view of it, as `insert_handle` says.
    pub fn insert(&mut self, name: &str) -> (result: Result<Object, Error>)
        requires
            old(self).wf(),
        ensures
            final(self).wf(),
            match result {
                Ok(object) => {
                    &&& !old(self).has_object(name.spec_bytes())
                    &&& Self::object_inserted(
                        old(self),
                        final(self),
                        name.spec_bytes(),
                        object.handle,
                    )
                    &&& final(self).has_object(name.spec_bytes())
                    &&& object.wf()
                    &&& object.attached(final(self))
                    &&& object.state.position == 0
                    &&& !object.state.needs_flush
                    &&& object.state.buffered_chunk is None
                },
                Err(error) => {
                    &&& *final(self) == *old(self)
                    &&& if old(self).has_object(name.spec_bytes()) {
                        error == Error::AlreadyExists
                    } else {
                        error == Error::Store && old(self).header.next_handle == u64::MAX && old(
                            self,
                        ).header.free_handles@.len() == 0
                    }
                },
            },
    {
        match self.insert_handle(name) {
            Ok(handle) => Ok(Object::new(self, handle)),
            Err(error) => Err(error),
        }
    }

    /// Returns a view of the object with the given name in the instance, if
    /// there is one. The view is at offset zero, with nothing written.
    pub fn get_mut(&self, name: &str) -> (found: Option<Object>)
        requires
            self.wf(),
        ensures
            match found {
                Some(object) => {
                    &&& self.has_object(name.spec_bytes())
                    &&& object.handle.repo_id == self.handle_of(name.spec_bytes()).repo_id
                    &&& object.handle.instance_id == self.handle_of(name.spec_bytes()).instance_id
                    &&& object.handle.handle_id == self.handle_of(name.spec_bytes()).handle_id
                    &&& object.handle.size == self.handle_of(name.spec_bytes()).size
                    &&& object.handle.chunks@ == self.handle_of(name.spec_bytes()).chunks@
                    &&& object.wf()
                    &&& object.attached(self)
                    &&& object.state.position == 0
                    &&& !object.state.needs_flush
                    &&& object.state.buffered_chunk is None
                },
                None => !self.has_object(name.spec_bytes()),
            },
    {
        match self.lookup(name) {
            Some(handle) => Some(Object::new(self, handle)),
            None => None,
        }
    }
}

impl Object {
    /// The view `self` with its seek position at the start of the object.
    pub open spec fn rewound(&self) -> Object {
        Object {
            handle: self.handle,
            state: ObjectState {
                position: 0,
                chunker: self.state.chunker,
                new_chunks: self.state.new_chunks,
                start_location: self.state.start_location,
                needs_flush: self.state.needs_flush,
                buffered_chunk: self.state.buffered_chunk,
                read_buffer: self.state.read_buffer,
                staged: self.state.staged,
            },
        }
    }

    /// Whether writing a serialized value, ending with `result`, makes `post`
    /// on `post_repo` of `pre` on `pre_repo`: the view is flushed; `bytes` are
    /// written from the start of the object; the view is flushed again; and
    /// the object is cut to the length of `bytes`. The first of these steps
    /// that fails ends it, with its error.
    pub open spec fn serializes_to<S: BlobStore>(
        pre: &Object,
        post: &Object,
        pre_repo: &ObjectRepo<S>,
        post_repo: &ObjectRepo<S>,
        bytes: Seq<u8>,
        result: Result<(), Error>,
    ) -> bool {
        exists|a: Object, a_repo: ObjectRepo<S>, flushed: Result<(), Error>|
            {
                &&& #[trigger] Self::flushes_to(pre, &a, pre_repo, &a_repo, flushed)
                &&& match flushed {
                    Err(error) => result == Err::<(), Error>(error) && *post == a && *post_repo
                        == a_repo,
                    Ok(()) => exists|b: Object, b_repo: ObjectRepo<S>, wrote: Result<usize, Error>|
                        {
                            &&& #[trigger] Self::writes_to(
                                &a.rewound(),
                                &b,
                                &a_repo,
                                &b_repo,
                                bytes,
                                wrote,
                            )
                            &&& match wrote {
                                Err(error) => result == Err::<(), Error>(error) && *post == b
                                    && *post_repo == b_repo,
                                Ok(_) => exists|
                                    c: Object,
                                    c_repo: ObjectRepo<S>,
                                    again: Result<(), Error>,
                                |
                                    {
                                        &&& #[trigger] Self::flushes_to(
                                            &b,
                                            &c,
                                            &b_repo,
                                            &c_repo,
                                            again,
                                        )
                                        &&& match again {
                                            Err(error) => result == Err::<(), Error>(error)
                                                && *post == c && *post_repo == c_repo,
                                            Ok(()) => Self::cuts_to(
                                                &c,
                                                post,
                                                &c_repo,
                                                post_repo,
                                                bytes.len() as u64,
                                                result,
                                            ),
                                        }
                                    },
                            }
                        },
                }
            }
    }

    /// Writes the serialized form of a value to the object: overwrites the
    /// data in the object from its start with `encoded`, and truncates the
    /// object to the length of `encoded`.
    #[verifier::rlimit(50)]
    pub fn serialize<S: BlobStore>(&mut self, repo: &mut ObjectRepo<S>, encoded: &[u8]) -> (result:
        Result<(), Error>)
        requires
            old(self).wf(),
            old(self).attached(old(repo)),
            old(repo).wf(),
        ensures
            Self::follows(old(self), final(self), old(repo), final(repo)),
            Self::serializes_to(old(self), final(self), old(repo), final(repo), encoded@, result),
    {
        let flushed = self.flush(repo);
        let ghost a = *self;
        let ghost a_repo = *repo;
        match flushed {
            Ok(()) => {},
            Err(error) => {
                return Err(error);
            },
        }
        self.state.position = 0;
        assert(*self == a.rewound());
        let wrote = self.write(repo, encoded);
        let ghost b = *self;
        let ghost b_repo = *repo;
        proof {
            ObjectRepo::lemma_kept_by_transitive(old(repo), &a_repo, &b_repo);
        }
        match wrote {
            Ok(_) => {},
            Err(error) => {
                return Err(error);
            },
        }
        let again = self.flush(repo);
        let ghost c = *self;
        let ghost c_repo = *repo;
        proof {
            ObjectRepo::lemma_kept_by_transitive(old(repo), &b_repo, &c_repo);
        }
        match again {
            Ok(()) => {},
            Err(error) => {
                return Err(error);
            },
        }
        let result = self.state.cut(&mut self.handle, repo, encoded.len() as u64);
        proof {
            ObjectRepo::lemma_kept_by_transitive(old(repo), &c_repo, repo);
            assert(Self::cuts_to(&c, self, &c_repo, repo, encoded@.len() as u64, result));
        }
        result
    }

    /// Reads the serialized form of a value from the object: the whole of
    /// the object, as `read_all` gives it.
    pub fn deserialize<S: BlobStore>(&mut self, repo: &mut ObjectRepo<S>) -> (result: Result<
        Vec<u8>,
        Error,
    >)
        requires
            old(self).wf(),
            old(self).attached(old(repo)),
            old(repo).wf(),
        ensures
            Self::follows(old(self), final(self), old(repo), final(repo)),
            exists|mid: Object, flushed: Result<(), Error>|
                {
                    &&& #[trigger] Self::flushes_to(old(self), &mid, old(repo), final(repo), flushed)
                    &&& match flushed {
                        Err(error) => result == Err::<Vec<u8>, Error>(error) && *final(self) == mid,
                        Ok(()) => {
                            &&& final(self).handle == mid.handle
                            &&& match result {
                                Ok(bytes) => bytes@ == final(repo).content(mid.handle.chunks@)
                                    && final(self).state.position == mid.handle.size,
                                Err(error) => exists|i: int|
                                    0 <= i < mid.handle.chunks@.len() && (final(repo).read_outcome(
                                        #[trigger] mid.handle.chunks@[i],
                                    ) == Err::<Seq<u8>, Error>(error) || (error == Error::Store
                                        && !final(repo).reliable())),
                            }
                        },
                    }
                },
    {
        self.read_all(repo)
    }

    /// Gives up what was written since the last flush, and the payload that
    /// was kept from the last read. The view can then work on any repository
    /// that cuts chunks as the one it was opened on.
    pub fn reset(&mut self)
        requires
            old(self).wf(),
        ensures
            final(self).wf(),
            final(self).handle == old(self).handle,
            final(self).state.position == old(self).state.position,
            final(self).state.chunker.config == old(self).state.chunker.config,
            !final(self).state.needs_flush,
            final(self).state.buffered_chunk is None,
            final(self).state.new_chunks@.len() == 0,
    {
        self.state.buffered_chunk = None;
        self.state.read_buffer = Vec::new();
        self.state.discard();
    }
}

/// A read-only view of data in a repository.
///
/// A `ReadOnlyObject` reads and seeks as an `Object` does; it never has
/// unflushed data.
pub struct ReadOnlyObject {
    /// The handle of the object.
    pub handle: ObjectHandle,
    /// The state of the view.
    pub state: ObjectState,
}

impl ReadOnlyObject {
    /// The invariant of a read-only view.
    pub open spec fn wf(&self) -> bool {
        self.handle.wf() && self.state.wf(self.handle.chunks@) && !self.state.needs_flush
    }

    /// Whether the view can work on `repo`.
    pub open spec fn attached<S: BlobStore>(&self, repo: &ObjectRepo<S>) -> bool {
        self.state.attached(repo)
    }

    /// A view of the object with the given handle, at offset zero.
    pub fn new<S: BlobStore>(repo: &ObjectRepo<S>, handle: ObjectHandle) -> (object: ReadOnlyObject)
        requires
            repo.wf(),
            handle.wf(),
        ensures
            object.wf(),
            object.attached(repo),
            object.handle == handle,
            object.state.position == 0,
            object.state.buffered_chunk is None,
    {
        ReadOnlyObject { handle, state: ObjectState::new(repo.header.config.chunking) }
    }

    /// Return the size of the object in bytes.
    pub fn size(&self) -> (size: u64)
        ensures
            size == self.handle.size,
    {
        self.handle.size
    }

    /// Return a `ContentId` representing the contents of this object.
    pub fn content_id(&self) -> (id: ContentId)
        ensures
            id.repo_id == self.handle.repo_id,
            id.size == self.handle.size,
            id.chunks@ == self.handle.chunks@,
    {
        self.handle.content_id()
    }

    /// Return whether this object has the same contents as `other`.
    pub fn compare_contents(&self, other: &[u8]) -> (same: bool)
        ensures
            same == same_contents(self.handle.chunks@, other@),
    {
        self.handle.compare_contents(other)
    }

    /// Verify the integrity of the data in this object, as `Object::verify`
    /// does.
    pub fn verify<S: BlobStore>(&mut self, repo: &ObjectRepo<S>) -> (result: Result<bool, Error>)
        requires
            repo.wf(),
        ensures
            *final(self) == *old(self),
            result == repo.verify_outcome(old(self).handle.chunks@) || (result == Err::<bool, Error>(
                Error::Store,
            ) && !repo.reliable()),
    {
        repo.verify_chunks(&self.handle.chunks)
    }

    /// Moves the seek position as `SeekFrom::resolve` says.
    pub fn seek(&mut self, to: SeekFrom) -> (result: Result<u64, Error>)
        requires
            old(self).wf(),
        ensures
            final(self).wf(),
            result == to.resolve(old(self).handle.size, old(self).state.position),
            final(self).handle == old(self).handle,
            final(self).state.position == match result {
                Ok(position) => position,
                Err(_) => old(self).state.position,
            },
            final(self).state.buffered_chunk == old(self).state.buffered_chunk,
            final(self).state.read_buffer == old(self).state.read_buffer,
            final(self).state.chunker == old(self).state.chunker,
            final(self).state.new_chunks == old(self).state.new_chunks,
    {
        self.state.seek(&self.handle, to)
    }

    /// Reads at most `limit` bytes at the seek position, as
    /// `ObjectState::read` says.
    pub fn read<S: BlobStore>(&mut self, repo: &ObjectRepo<S>, limit: usize) -> (result: Result<
        Vec<u8>,
        Error,
    >)
        requires
            old(self).wf(),
            old(self).attached(repo),
            repo.wf(),
        ensures
            final(self).wf(),
            final(self).attached(repo),
            final(self).handle == old(self).handle,
            ObjectState::read_outcome(
                &old(self).state,
                &final(self).state,
                &old(self).handle,
                repo,
                limit,
                result,
            ),
    {
        self.state.read(&self.handle, repo, limit)
    }

    /// Reads the serialized form of a value from the object: the whole of
    /// the object, from its start.
    pub fn deserialize<S: BlobStore>(&mut self, repo: &ObjectRepo<S>) -> (result: Result<
        Vec<u8>,
        Error,
    >)
        requires
            old(self).wf(),
            old(self).attached(repo),
            repo.wf(),
        ensures
            final(self).wf(),
            final(self).attached(repo),
            final(self).handle == old(self).handle,
            match result {
                Ok(bytes) => {
                    &&& bytes@ == repo.content(old(self).handle.chunks@)
                    &&& final(self).state.position == old(self).handle.size
                },
                Err(error) => exists|i: int|
                    0 <= i < old(self).handle.chunks@.len() && (repo.read_outcome(
                        #[trigger] old(self).handle.chunks@[i],
                    ) == Err::<Seq<u8>, Error>(error) || (error == Error::Store
                        && !repo.reliable())),
            },
    {
        self.state.position = 0;
        let count = self.handle.chunks.len();
        let result = self.state.read_to_end(&self.handle, repo);
        proof {
            repo.lemma_content_from_chunk(self.handle.chunks@, 0);
            assert(self.handle.chunks@.take(0) =~= Seq::<Chunk>::empty());
            assert(self.handle.chunks@.skip(0) =~= self.handle.chunks@);
        }
        result
    }
}

impl<S: BlobStore> ObjectRepo<S> {
    /// Returns a read-only view of the object with the given name in the
    /// instance, if there is one. The view is at offset zero.
    pub fn get(&self, name: &str) -> (found: Option<ReadOnlyObject>)
        requires
            self.wf(),
        ensures
            match found {
                Some(object) => {
                    &&& self.has_object(name.spec_bytes())
                    &&& object.handle.repo_id == self.handle_of(name.spec_bytes()).repo_id
                    &&& object.handle.instance_id == self.handle_of(name.spec_bytes()).instance_id
                    &&& object.handle.handle_id == self.handle_of(name.spec_bytes()).handle_id
                    &&& object.handle.size == self.handle_of(name.spec_bytes()).size
                    &&& object.handle.chunks@ == self.handle_of(name.spec_bytes()).chunks@
                    &&& object.wf()
                    &&& object.attached(self)
                    &&& object.state.position == 0
                    &&& object.state.buffered_chunk is None
                },
                None => !self.has_object(name.spec_bytes()),
            },
    {
        match self.lookup(name) {
            Some(handle) => Some(ReadOnlyObject::new(self, handle)),
            None => None,
        }
    }
}

impl Object {
    /// Reads `size` bytes from offset `offset` on, or as many as there are up
    /// to the end of the object: seeks to the offset, and then reads until
    /// that many bytes are read or the end is reached.
    #[verifier::rlimit(50)]
    pub fn read_at<S: BlobStore>(&mut self, repo: &mut ObjectRepo<S>, offset: u64, size: usize) -> (result:
        Result<Vec<u8>, Error>)
        requires
            old(self).wf(),
            old(self).attached(old(repo)),
            old(repo).wf(),
        ensures
            Self::follows(old(self), final(self), old(repo), final(repo)),
            exists|sought: Object, found: Result<u64, Error>|
                {
                    &&& #[trigger] Self::seeks_to(
                        old(self),
                        &sought,
                        old(repo),
                        final(repo),
                        SeekFrom::Start(offset),
                        found,
                    )
                    &&& match found {
                        Err(error) => result == Err::<Vec<u8>, Error>(error) && *final(self)
                            == sought,
                        Ok(position) => {
                            &&& final(self).handle == sought.handle
                            &&& match result {
                                Ok(bytes) => {
                                    &&& bytes@ == ObjectState::up_to(
                                        final(repo).content_from(sought.handle.chunks@, position),
                                        size,
                                    )
                                    &&& final(self).state.position == position + bytes@.len()
                                },
                                Err(error) => exists|i: int|
                                    0 <= i < sought.handle.chunks@.len() && (final(repo).read_outcome(
                                        #[trigger] sought.handle.chunks@[i],
                                    ) == Err::<Seq<u8>, Error>(error) || (error == Error::Store
                                        && !final(repo).reliable())),
                            }
                        },
                    }
                },
    {
        let found = self.seek(repo, SeekFrom::Start(offset));
        let ghost sought = *self;
        match found {
            Ok(_) => {},
            Err(error) => {
                return Err(error);
            },
        }
        assert(self.state.position == found->Ok_0);
        self.state.read_up_to(&self.handle, repo, size)
    }

    /// Where a write at offset `offset` seeks to: the end of the object
    /// where `append` is set, and else the offset.
    pub open spec fn write_target(offset: u64, append: bool) -> SeekFrom {
        if append {
            SeekFrom::End(0)
        } else {
            SeekFrom::Start(offset)
        }
    }

    /// Writes `bytes` at offset `offset`, or at the end of the object where
    /// `append` is set, and returns the number of bytes written: seeks there
    /// unless the seek position is there already, and then writes. A seek
    /// flushes; a write that goes on where the last one ended does not.
    #[verifier::rlimit(50)]
    pub fn write_at<S: BlobStore>(
        &mut self,
        repo: &mut ObjectRepo<S>,
        offset: u64,
        append: bool,
        bytes: &[u8],
    ) -> (result: Result<usize, Error>)
        requires
            old(self).wf(),
            old(self).attached(old(repo)),
            old(repo).wf(),
        ensures
            Self::follows(old(self), final(self), old(repo), final(repo)),
            if !append && offset == old(self).state.position {
                Self::writes_to(old(self), final(self), old(repo), final(repo), bytes@, result)
            } else {
                exists|sought: Object, sought_repo: ObjectRepo<S>, found: Result<u64, Error>|
                    {
                        &&& #[trigger] Self::seeks_to(
                            old(self),
                            &sought,
                            old(repo),
                            &sought_repo,
                            Self::write_target(offset, append),
                            found,
                        )
                        &&& match found {
                            Err(error) => result == Err::<usize, Error>(error) && *final(self)
                                == sought && *final(repo) == sought_repo,
                            Ok(_) => Self::writes_to(
                                &sought,
                                final(self),
                                &sought_repo,
                                final(repo),
                                bytes@,
                                result,
                            ),
                        }
                    }
            },
    {
        if append || offset != self.state.position {
            let to = if append {
                SeekFrom::End(0)
            } else {
                SeekFrom::Start(offset)
            };
            let found = self.seek(repo, to);
            let ghost sought = *self;
            let ghost sought_repo = *repo;
            match found {
                Ok(_) => {},
                Err(error) => {
                    return Err(error);
                },
            }
            let result = self.write(repo, bytes);
            proof {
                ObjectRepo::lemma_kept_by_transitive(old(repo), &sought_repo, repo);
                assert(Self::seeks_to(old(self), &sought, old(repo), &sought_repo, to, found));
            }
            result
        } else {
            self.write(repo, bytes)
        }
    }
}

} // verus!
