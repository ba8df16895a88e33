//! The document model: a versioned header plus chunks of typed objects,
//! with opaque chunks and attributes preserved for round-tripping.

use vstd::prelude::*;

verus! {

/// An in-memory document: version string, header, data chunks, and any
/// unrecognized top-level chunks kept verbatim.
#[derive(Debug)]
pub struct Entity {
    pub version: String,
    pub header_chunk: HeaderChunk,
    pub data_chunks: Vec<DataChunk>,
    pub other_chunks: Vec<Chunk>,
}

/// An opaque top-level chunk: 4-character code plus raw payload.
#[derive(Debug)]
pub struct Chunk {
    pub code: String,
    pub data: Vec<u8>,
}

/// An unrecognized header attribute: 4-character key plus raw value.
#[derive(Clone, Debug)]
pub struct HeaderAttibute {
    pub key: String,
    pub val: Vec<u8>,
}

/// The recognized parts of the header, plus unrecognized attributes.
/// The creation date is in unix seconds.
#[derive(Debug)]
pub struct HeaderChunk {
    pub creation_date: Option<u64>,
    pub width: u16,
    pub height: u16,
    pub other_attributes: Vec<HeaderAttibute>,
}

/// A polyline path: one fill color and the ordered corner vertices.
#[derive(Debug)]
pub struct PathObject {
    pub color: [u8; 3],
    pub points: Vec<[u16; 2]>,
}

/// A typed object inside a data chunk, keyed on the wire by a one-byte
/// type code.
#[derive(Debug)]
pub enum Object {
    Path(PathObject),
}

/// An ordered list of objects.
#[derive(Debug)]
pub struct DataChunk {
    pub objects: Vec<Object>,
}

/// Mathematical model of a header attribute.
pub struct AttrView {
    pub key: Seq<char>,
    pub val: Seq<u8>,
}

/// Mathematical model of an opaque chunk.
pub struct ChunkView {
    pub code: Seq<char>,
    pub data: Seq<u8>,
}

/// Mathematical model of a path.
pub struct PathView {
    pub color: (u8, u8, u8),
    pub points: Seq<(u16, u16)>,
}

/// Mathematical model of an object.
pub enum ObjectView {
    Path(PathView),
}

/// Mathematical model of the header.
pub struct HeaderView {
    pub creation_date: Option<u64>,
    pub width: u16,
    pub height: u16,
    pub other_attributes: Seq<AttrView>,
}

/// Mathematical model of an entity.
pub struct EntityView {
    pub version: Seq<char>,
    pub header_chunk: HeaderView,
    pub data_chunks: Seq<Seq<ObjectView>>,
    pub other_chunks: Seq<ChunkView>,
}

impl View for HeaderAttibute {
    type V = AttrView;

    open spec fn view(&self) -> AttrView {
        AttrView { key: self.key@, val: self.val@ }
    }
}

impl View for Chunk {
    type V = ChunkView;

    open spec fn view(&self) -> ChunkView {
        ChunkView { code: self.code@, data: self.data@ }
    }
}

impl View for PathObject {
    type V = PathView;

    open spec fn view(&self) -> PathView {
        PathView {
            color: (self.color@[0], self.color@[1], self.color@[2]),
            points: self.points@.map_values(|p: [u16; 2]| (p@[0], p@[1])),
        }
    }
}

impl View for Object {
    type V = ObjectView;

    open spec fn view(&self) -> ObjectView {
        match self {
            Object::Path(p) => ObjectView::Path(p@),
        }
    }
}

impl View for DataChunk {
    type V = Seq<ObjectView>;

    open spec fn view(&self) -> Seq<ObjectView> {
        self.objects@.map_values(|o: Object| o@)
    }
}

impl View for HeaderChunk {
    type V = HeaderView;

    open spec fn view(&self) -> HeaderView {
        HeaderView {
            creation_date: self.creation_date,
            width: self.width,
            height: self.height,
            other_attributes: self.other_attributes@.map_values(|a: HeaderAttibute| a@),
        }
    }
}

impl View for Entity {
    type V = EntityView;

    open spec fn view(&self) -> EntityView {
        EntityView {
            version: self.version@,
            header_chunk: self.header_chunk@,
            data_chunks: self.data_chunks@.map_values(|d: DataChunk| d@),
            other_chunks: self.other_chunks@.map_values(|c: Chunk| c@),
        }
    }
}

} // verus!
