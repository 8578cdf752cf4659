//! The two persisted record kinds — the header of a stored object and one
//! chunk of its payload — together with the error shapes the service reports.

use vstd::prelude::*;

verus! {

/// Mathematical value of a [`HeaderDoc`].
pub ghost struct HeaderView {
    pub id: Seq<char>,
    pub delete_key: Seq<char>,
    pub content_type: Seq<char>,
    pub file_extension: Seq<char>,
    pub content_length: u32,
    pub uploaded_at: u64,
    pub total_chunks: u32,
}

/// Metadata record describing one stored object.
pub struct HeaderDoc {
    /// Primary key: the short object identifier.
    pub id: String,
    /// Capability required to delete the object.
    pub delete_key: String,
    /// MIME type supplied at upload; possibly empty.
    pub content_type: String,
    /// Derived from the uploaded filename, with its leading dot; possibly empty.
    pub file_extension: String,
    /// Total payload byte length.
    pub content_length: u32,
    /// Upload timestamp, milliseconds since the epoch.
    pub uploaded_at: u64,
    /// Number of chunk records belonging to this object.
    pub total_chunks: u32,
}

impl View for HeaderDoc {
    type V = HeaderView;

    open spec fn view(&self) -> HeaderView {
        HeaderView {
            id: self.id@,
            delete_key: self.delete_key@,
            content_type: self.content_type@,
            file_extension: self.file_extension@,
            content_length: self.content_length,
            uploaded_at: self.uploaded_at,
            total_chunks: self.total_chunks,
        }
    }
}

impl Clone for HeaderDoc {
    fn clone(&self) -> (r: Self)
        ensures
            r@ == self@,
    {
        HeaderDoc {
            id: self.id.clone(),
            delete_key: self.delete_key.clone(),
            content_type: self.content_type.clone(),
            file_extension: self.file_extension.clone(),
            content_length: self.content_length,
            uploaded_at: self.uploaded_at,
            total_chunks: self.total_chunks,
        }
    }
}

impl HeaderDoc {
    /// Builds a header record from its fields, unchanged.
    pub fn new(
        id: String,
        delete_key: String,
        content_type: String,
        file_extension: String,
        content_length: u32,
        uploaded_at: u64,
        total_chunks: u32,
    ) -> (r: Self)
        ensures
            r@ == (HeaderView {
                id: id@,
                delete_key: delete_key@,
                content_type: content_type@,
                file_extension: file_extension@,
                content_length,
                uploaded_at,
                total_chunks,
            }),
    {
        HeaderDoc { id, delete_key, content_type, file_extension, content_length, uploaded_at, total_chunks }
    }
}

/// Mathematical value of a [`ChunkDoc`].
pub ghost struct ChunkView {
    pub parent_id: Seq<char>,
    pub index: i32,
    pub data: Seq<u8>,
}

/// One bounded-size slice of an object's payload.
pub struct ChunkDoc {
    /// Foreign key: the id of the header this chunk belongs to.
    pub parent_id: String,
    /// 1-based position of this chunk within the object.
    pub index: i32,
    /// The slice of payload bytes.
    pub data: Vec<u8>,
}

impl View for ChunkDoc {
    type V = ChunkView;

    open spec fn view(&self) -> ChunkView {
        ChunkView { parent_id: self.parent_id@, index: self.index, data: self.data@ }
    }
}

impl Clone for ChunkDoc {
    fn clone(&self) -> (r: Self)
        ensures
            r@ == self@,
    {
        ChunkDoc {
            parent_id: self.parent_id.clone(),
            index: self.index,
            data: clone_bytes(&self.data),
        }
    }
}

impl ChunkDoc {
    /// Builds a chunk record from its fields, unchanged.
    pub fn new(parent_id: String, index: i32, data: Vec<u8>) -> (r: Self)
        ensures
            r@ == (ChunkView { parent_id: parent_id@, index, data: data@ }),
    {
        ChunkDoc { parent_id, index, data }
    }
}

/// Copies a byte vector element by element.
fn clone_bytes(v: &Vec<u8>) -> (r: Vec<u8>)
    ensures
        r@ == v@,
{
    let mut r: Vec<u8> = Vec::new();
    let mut i: usize = 0;
    while i < v.len()
        invariant
            i <= v.len(),
            r@ == v@.subrange(0, i as int),
        decreases v.len() - i,
    {
        r.push(v[i]);
        i += 1;
        proof {
            assert(r@ =~= v@.subrange(0, i as int));
        }
    }
    proof {
        assert(r@ =~= v@);
    }
    r
}

/// The outcomes the object service reports instead of a stored object.
#[derive(Clone, Copy, PartialEq, Eq, Structural, Debug)]
pub enum ServiceError {
    /// No header exists for the requested id.
    NotFound,
    /// A header exists but its chunk set could not be produced.
    NoChunksFound,
    /// The supplied delete key does not match the stored one.
    InvalidDeleteKey,
    /// The upload credential does not match the configured secret.
    Unauthorized,
    /// The bounded identifier-allocation retry found no unused id; reported
    /// as a server error instead of probing forever.
    IdSpaceExhausted,
}

impl ServiceError {
    /// The wire code for this error, as a sequence of characters.
    pub open spec fn spec_code(self) -> Seq<char> {
        match self {
            ServiceError::NotFound => "not_found"@,
            ServiceError::NoChunksFound => "no_chunks_found"@,
            ServiceError::InvalidDeleteKey => "invalid_delete_key"@,
            ServiceError::Unauthorized => "unauthorized"@,
            ServiceError::IdSpaceExhausted => "id_space_exhausted"@,
        }
    }

    /// The wire code for this error, as it appears in the response body.
    pub fn code(&self) -> (r: &'static str)
        ensures
            r@ == self.spec_code(),
    {
        match self {
            ServiceError::NotFound => "not_found",
            ServiceError::NoChunksFound => "no_chunks_found",
            ServiceError::InvalidDeleteKey => "invalid_delete_key",
            ServiceError::Unauthorized => "unauthorized",
            ServiceError::IdSpaceExhausted => "id_space_exhausted",
        }
    }

    /// The error body shape for this error.
    pub fn to_error(&self) -> (r: Error)
        ensures
            r@ == self.spec_code(),
    {
        Error::new(String::from_str(self.code()))
    }
}

/// The response body shape for every non-payload outcome: a single error code,
/// empty on a successful delete.
pub struct Error {
    error: String,
}

impl View for Error {
    type V = Seq<char>;

    closed spec fn view(&self) -> Seq<char> {
        self.error@
    }
}

impl Error {
    /// Wraps an error code in the response body shape.
    pub fn new(error: String) -> (r: Self)
        ensures
            r@ == error@,
    {
        Error { error }
    }

    /// The wrapped error code.
    pub fn code(&self) -> (r: &String)
        ensures
            r@ == self@,
    {
        &self.error
    }
}

} // verus!
