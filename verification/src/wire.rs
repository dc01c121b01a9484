//! The transport wire format.
//!
//! A request goes out as one compact JSON object: its kind as the
//! `type` field (`memo` or `url`), the content, and each optional
//! field only when present — absent fields are omitted, never null.
//! The library produces that exact text; the surrounding binary only
//! posts it.  The transport's reply is a message and a numeric code;
//! only the code 200 counts as success, and only success may advance
//! the usage counters.

use vstd::prelude::*;
use crate::classify::{CuboxRequest, ReqModel, SaveKind};
use crate::jsontext::{append_jstring, jstring};

verus! {

/// The transport's reply to a save: a human-readable message and a
/// numeric code.
#[derive(Debug)]
pub struct CuboxResponse {
    pub message: String,
    pub code: i32,
}

impl CuboxResponse {
    pub fn new(message: String, code: i32) -> (r: CuboxResponse)
        ensures
            r.message == message,
            r.code == code,
    {
        CuboxResponse { message, code }
    }

    /// The save succeeded exactly when the reply's code is 200.
    pub fn is_success(&self) -> (r: bool)
        ensures
            r == (self.code == 200),
    {
        self.code == 200
    }
}

/// The word the wire uses for a request's kind.
pub open spec fn kind_word(k: SaveKind) -> Seq<char> {
    match k {
        SaveKind::Memo => "memo"@,
        SaveKind::Bookmark => "url"@,
    }
}

/// The tag values as a comma-separated row of quoted strings.
pub open spec fn tags_body(tags: Seq<Seq<char>>) -> Seq<char>
    decreases tags.len(),
{
    if tags.len() == 0 {
        Seq::empty()
    } else if tags.len() == 1 {
        jstring(tags[0])
    } else {
        tags_body(tags.drop_last()) + seq![','] + jstring(tags.last())
    }
}

/// The whole request as wire text: kind and content always, the
/// optional fields and the tag row only when present.
pub open spec fn request_text(m: ReqModel) -> Seq<char> {
    "{\"type\":"@ + jstring(kind_word(m.kind)) + ",\"content\":"@ + jstring(m.content) + (match m
        .title {
        Some(t) => ",\"title\":"@ + jstring(t),
        None => Seq::empty(),
    }) + (match m.description {
        Some(t) => ",\"description\":"@ + jstring(t),
        None => Seq::empty(),
    }) + (match m.folder {
        Some(t) => ",\"folder\":"@ + jstring(t),
        None => Seq::empty(),
    }) + (if m.tags.len() == 0 {
        Seq::empty()
    } else {
        ",\"tags\":["@ + tags_body(m.tags) + seq![']']
    }) + seq!['}']
}

/// Write the request as the wire text the transport posts.
pub fn request_json(req: &CuboxRequest) -> (r: String)
    ensures
        r@ == request_text(req@),
{
    let mut out = String::new();
    out.append("{\"type\":");
    match req.kind {
        SaveKind::Memo => append_jstring(&mut out, "memo"),
        SaveKind::Bookmark => append_jstring(&mut out, "url"),
    }
    out.append(",\"content\":");
    append_jstring(&mut out, req.content.as_str());
    let ghost p1 = "{\"type\":"@ + jstring(kind_word(req@.kind)) + ",\"content\":"@ + jstring(
        req@.content,
    );
    proof {
        assert(out@ =~= p1);
    }
    match &req.title {
        Some(t) => {
            out.append(",\"title\":");
            append_jstring(&mut out, t.as_str());
        },
        None => {},
    }
    let ghost p2 = p1 + (match req@.title {
        Some(t) => ",\"title\":"@ + jstring(t),
        None => Seq::<char>::empty(),
    });
    proof {
        assert(out@ =~= p2);
    }
    match &req.description {
        Some(t) => {
            out.append(",\"description\":");
            append_jstring(&mut out, t.as_str());
        },
        None => {},
    }
    let ghost p3 = p2 + (match req@.description {
        Some(t) => ",\"description\":"@ + jstring(t),
        None => Seq::<char>::empty(),
    });
    proof {
        assert(out@ =~= p3);
    }
    match &req.folder {
        Some(t) => {
            out.append(",\"folder\":");
            append_jstring(&mut out, t.as_str());
        },
        None => {},
    }
    let ghost p4 = p3 + (match req@.folder {
        Some(t) => ",\"folder\":"@ + jstring(t),
        None => Seq::<char>::empty(),
    });
    proof {
        assert(out@ =~= p4);
    }
    let ghost tags = req.tags.deep_view();
    if req.tags.len() > 0 {
        out.append(",\"tags\":[");
        let ghost base = out@;
        let mut i: usize = 0;
        proof {
            assert(tags.take(0 as int) =~= Seq::<Seq<char>>::empty());
            assert(out@ =~= base + tags_body(tags.take(0 as int)));
        }
        while i < req.tags.len()
            invariant
                i <= req.tags.len(),
                tags == req.tags.deep_view(),
                tags.len() == req.tags.len(),
                out@ == base + tags_body(tags.take(i as int)),
            decreases req.tags.len() - i,
        {
            proof {
                reveal_strlit(",");
                assert(","@ =~= seq![',']);
                assert(tags.take(i + 1 as int).drop_last() =~= tags.take(i as int));
                assert(tags.take(i + 1 as int).last() == tags[i as int]);
                assert(tags[i as int] == req.tags[i as int]@);
            }
            if i > 0 {
                out.append(",");
            }
            append_jstring(&mut out, req.tags[i].as_str());
            proof {
                if i == 0 {
                    assert(tags.take(1 as int).len() == 1);
                    assert(tags.take(1 as int)[0] == tags[0]);
                    assert(out@ =~= base + tags_body(tags.take(i + 1 as int)));
                } else {
                    assert(out@ =~= base + tags_body(tags.take(i + 1 as int)));
                }
            }
            i += 1;
        }
        proof {
            assert(tags.take(req.tags.len() as int) =~= tags);
            reveal_strlit("]");
            assert("]"@ =~= seq![']']);
        }
        out.append("]");
        proof {
            assert(out@ =~= p4 + (",\"tags\":["@ + tags_body(tags) + seq![']']));
        }
    }
    let ghost p5 = p4 + (if req@.tags.len() == 0 {
        Seq::<char>::empty()
    } else {
        ",\"tags\":["@ + tags_body(req@.tags) + seq![']']
    });
    proof {
        assert(req@.tags == tags);
        assert(out@ =~= p5);
    }
    out.append("}");
    proof {
        reveal_strlit("}");
        assert("}"@ =~= seq!['}']);
        assert(out@ =~= p5 + seq!['}']);
        assert(request_text(req@) =~= p5 + seq!['}']);
    }
    out
}

} // verus!
