//! The flat input records: a raw line shape (`JsonStruct`) and the typed
//! `Post` that the thread forest is built from.

use vstd::prelude::*;

verus! {

/// Abstraction of a [`Post`]: every field as a sequence of characters or a
/// plain boolean.
pub ghost struct PostView {
    pub id: Seq<char>,
    pub is_thread: bool,
    pub pagetext: Seq<char>,
    pub parent_post_id: Seq<char>,
    pub root_post_id: Seq<char>,
}

/// The raw shape of one input line: all five fields as strings, before the
/// `is_thread` flag is decoded. Built at the input boundary.
pub struct JsonStruct {
    id: String,
    is_thread: String,
    pagetext: String,
    parent_post_id: String,
    root_post_id: String,
}

/// Abstraction of a [`JsonStruct`]: the five raw fields.
pub ghost struct JsonStructView {
    pub id: Seq<char>,
    pub is_thread: Seq<char>,
    pub pagetext: Seq<char>,
    pub parent_post_id: Seq<char>,
    pub root_post_id: Seq<char>,
}

impl View for JsonStruct {
    type V = JsonStructView;

    closed spec fn view(&self) -> JsonStructView {
        JsonStructView {
            id: self.id@,
            is_thread: self.is_thread@,
            pagetext: self.pagetext@,
            parent_post_id: self.parent_post_id@,
            root_post_id: self.root_post_id@,
        }
    }
}

impl JsonStruct {
    /// Bundles the five raw fields of one input line.
    pub fn new(
        id: String,
        is_thread: String,
        pagetext: String,
        parent_post_id: String,
        root_post_id: String,
    ) -> (r: JsonStruct)
        ensures
            r@.id == id@,
            r@.is_thread == is_thread@,
            r@.pagetext == pagetext@,
            r@.parent_post_id == parent_post_id@,
            r@.root_post_id == root_post_id@,
    {
        JsonStruct { id, is_thread, pagetext, parent_post_id, root_post_id }
    }
}

/// One forum post or comment. Roots carry `parent_post_id == id`;
/// `root_post_id` is carried through but never read by the forest.
#[derive(Clone)]
pub struct Post {
    pub id: String,
    pub is_thread: bool,
    pub pagetext: String,
    pub parent_post_id: String,
    pub root_post_id: String,
}

impl View for Post {
    type V = PostView;

    open spec fn view(&self) -> PostView {
        PostView {
            id: self.id@,
            is_thread: self.is_thread,
            pagetext: self.pagetext@,
            parent_post_id: self.parent_post_id@,
            root_post_id: self.root_post_id@,
        }
    }
}

impl PostView {
    /// The payload a never-observed parent id is given: self-parented, empty
    /// text, marked as a thread start.
    pub open spec fn placeholder(id: Seq<char>) -> PostView {
        PostView {
            id: id,
            is_thread: true,
            pagetext: Seq::empty(),
            parent_post_id: id,
            root_post_id: id,
        }
    }
}

impl Post {
    /// Builds a post from its five fields.
    pub fn new(
        id: String,
        is_thread: bool,
        pagetext: String,
        parent_post_id: String,
        root_post_id: String,
    ) -> (r: Post)
        ensures
            r@ == (PostView {
                id: id@,
                is_thread,
                pagetext: pagetext@,
                parent_post_id: parent_post_id@,
                root_post_id: root_post_id@,
            }),
    {
        Post { id, is_thread, pagetext, parent_post_id, root_post_id }
    }

    /// The synthesized stand-in for an id referenced as a parent but never
    /// observed as a record of its own: self-parented, empty text, a root.
    pub fn placeholder(id: String) -> (r: Post)
        ensures
            r@ == PostView::placeholder(id@),
    {
        let id2 = id.clone();
        let id3 = id.clone();
        Post {
            id: id,
            is_thread: true,
            pagetext: String::new(),
            parent_post_id: id2,
            root_post_id: id3,
        }
    }

    /// Decodes a raw line shape into a post: `is_thread` is true exactly when
    /// the raw field is `"Y"`. Always succeeds; the option mirrors the
    /// filtering boundary, where callers drop `None`.
    pub fn from_json_struct(json: JsonStruct) -> (r: Option<Post>)
        ensures
            r is Some,
            r->0@.id == json@.id,
            r->0@.is_thread == (json@.is_thread == "Y"@),
            r->0@.pagetext == json@.pagetext,
            r->0@.parent_post_id == json@.parent_post_id,
            r->0@.root_post_id == json@.root_post_id,
    {
        let is_thread = string_eq_literal(&json.is_thread, "Y");
        Some(Post {
            id: json.id,
            is_thread,
            pagetext: json.pagetext,
            parent_post_id: json.parent_post_id,
            root_post_id: json.root_post_id,
        })
    }
}

/// Compares a string against a literal by view equality.
fn string_eq_literal(s: &String, lit: &str) -> (r: bool)
    ensures
        r == (s@ == lit@),
{
    let lit_string: String = lit.to_owned();
    let r = *s == lit_string;
    r
}

} // verus!
