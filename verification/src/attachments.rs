//! Attached files.
use vstd::prelude::*;
use crate::ebml::{models, lemma_models_take, Element, ElementModel, ElementType, MatroskaError, spec_parse_master};
use crate::fields::{lemma_other_id_ignored, is_last_with_id, has_no_id, is_master_with_id, lemma_last_value, lemma_no_value, lemma_masters_push, lemma_masters_count, last_utf8, last_string, last_binary, masters, text_or_empty, bytes_or_empty};
use crate::ids::{ATTACHEDFILE, FILEDESCRIPTION, FILENAME, FILEMIMETYPE, FILEDATA};
use crate::tracks::opt_text;

verus! {

/// An attached file (often used for cover art)
#[derive(Debug)]
pub struct Attachment {
    /// A human-friendly name for the file
    pub description: Option<String>,
    /// The file's name
    pub name: String,
    /// The file's MIME type
    pub mime_type: String,
    /// The file's raw data
    pub data: Vec<u8>,
}

/// An attached file, as a mathematical object.
pub struct AttachmentView {
    pub description: Option<Seq<char>>,
    pub name: Seq<char>,
    pub mime_type: Seq<char>,
    pub data: Seq<u8>,
}

impl View for Attachment {
    type V = AttachmentView;

    open spec fn view(&self) -> AttachmentView {
        AttachmentView {
            description: opt_text(self.description),
            name: self.name@,
            mime_type: self.mime_type@,
            data: self.data@,
        }
    }
}

/// The file that an AttachedFile element's children describe: the last FileDescription,
/// and the last FileName, FileMimeType and FileData, each empty when absent.
pub open spec fn spec_attachment(es: Seq<ElementModel>) -> AttachmentView {
    AttachmentView {
        description: last_utf8(es, FILEDESCRIPTION),
        name: text_or_empty(last_utf8(es, FILENAME)),
        mime_type: text_or_empty(last_string(es, FILEMIMETYPE)),
        data: bytes_or_empty(last_binary(es, FILEDATA)),
    }
}

/// The files that an Attachments element's children describe: one for each AttachedFile,
/// in order.
pub open spec fn spec_attachments(es: Seq<ElementModel>) -> Seq<AttachmentView> {
    masters(es, ATTACHEDFILE).map_values(|c: Seq<ElementModel>| spec_attachment(c))
}

impl Attachment {
    /// An attachment with empty name, type and data, without description.
    pub fn new() -> (attachment: Attachment)
        ensures
            attachment@ == spec_attachment(Seq::empty()),
    {
        Attachment { description: None, name: String::new(), mime_type: String::new(), data: Vec::new() }
    }

    /// Reads the attached files held in the body of an Attachments element.
    pub fn parse(data: &[u8]) -> (res: Result<Vec<Attachment>, MatroskaError>)
        ensures
            match spec_parse_master(data@) {
                Ok(es) => res matches Ok(v) && v@.map_values(|a: Attachment| a@) == spec_attachments(es),
                Err(e) => res == Err::<Vec<Attachment>, MatroskaError>(e),
            },
    {
        let elements = match Element::parse_master(data) {
            Ok(elements) => elements,
            Err(e) => return Err(e),
        };
        let ghost es = elements@;
        let mut attachments: Vec<Attachment> = Vec::new();
        proof {
            assert(es.take(0) =~= Seq::<Element>::empty());
            assert(attachments@.map_values(|a: Attachment| a@) =~= spec_attachments(models(es.take(0))));
        }
        for e in it: elements
            invariant
                it.seq() == es,
                attachments@.map_values(|a: Attachment| a@) == spec_attachments(models(es.take(it.index() as int))),
        {
            proof {
                lemma_models_take(es, it.index() as int);
            }
            let ghost old_attachments = attachments@;
            let Element { id, size: _, val } = e;
            match val {
                ElementType::Master(sub) => {
                    if id == ATTACHEDFILE {
                        let attachment = Attachment::build_entry(sub);
                        attachments.push(attachment);
                        proof {
                            let ms = masters(models(es.take(it.index() as int)), ATTACHEDFILE);
                            let f = |c: Seq<ElementModel>| spec_attachment(c);
                            assert(ms.push(models(sub@)).map_values(f) =~= ms.map_values(f).push(
                                f(models(sub@)),
                            ));
                            assert(attachments@.map_values(|a: Attachment| a@) =~= old_attachments.map_values(
                                |a: Attachment| a@,
                            ).push(attachment@));
                        }
                    }
                },
                _ => {},
            }
        }
        proof {
            assert(es.take(es.len() as int) =~= es);
        }
        Ok(attachments)
    }

    /// Builds an attachment from the children of an AttachedFile element.
    pub fn build_entry(elements: Vec<Element>) -> (attachment: Attachment)
        ensures
            attachment@ == spec_attachment(models(elements@)),
    {
        let ghost es = elements@;
        let mut attachment = Attachment::new();
        proof {
            assert(es.take(0) =~= Seq::<Element>::empty());
        }
        for e in it: elements
            invariant
                it.seq() == es,
                attachment@ == spec_attachment(models(es.take(it.index() as int))),
        {
            proof {
                lemma_models_take(es, it.index() as int);
            }
            let Element { id, size: _, val } = e;
            match val {
                ElementType::UTF8(s) => {
                    if id == FILEDESCRIPTION {
                        attachment.description = Some(s);
                    } else if id == FILENAME {
                        attachment.name = s;
                    }
                },
                ElementType::String(s) => {
                    if id == FILEMIMETYPE {
                        attachment.mime_type = s;
                    }
                },
                ElementType::Binary(b) => {
                    if id == FILEDATA {
                        attachment.data = b;
                    }
                },
                _ => {},
            }
        }
        proof {
            assert(es.take(es.len() as int) =~= es);
        }
        attachment
    }
}

/// An attached file is read from its FileDescription, FileName, FileMimeType and FileData
/// children only: a child with any other ID leaves it unchanged.
pub proof fn lemma_attachment_reads_own_children(es: Seq<ElementModel>, e: ElementModel)
    requires
        e.id != FILEDESCRIPTION,
        e.id != FILENAME,
        e.id != FILEMIMETYPE,
        e.id != FILEDATA,
    ensures
        spec_attachment(es.push(e)) == spec_attachment(es),
{
    lemma_other_id_ignored(es, e, FILEDESCRIPTION);
    lemma_other_id_ignored(es, e, FILENAME);
    lemma_other_id_ignored(es, e, FILEMIMETYPE);
    lemma_other_id_ignored(es, e, FILEDATA);
}

/// The files of an Attachments element are read from its AttachedFile children only: a
/// child with any other ID leaves them unchanged.
pub proof fn lemma_attachments_read_own_children(es: Seq<ElementModel>, e: ElementModel)
    requires
        e.id != ATTACHEDFILE,
    ensures
        spec_attachments(es.push(e)) == spec_attachments(es),
{
    lemma_other_id_ignored(es, e, ATTACHEDFILE);
}

/// An attached file takes its description and name from the last FileDescription and
/// FileName, its MIME type from the last FileMimeType and its data from the last FileData:
/// the description is absent and the others empty when there is none.
pub proof fn lemma_attachment_fields(es: Seq<ElementModel>)
    ensures
        forall|i: int| #[trigger] is_last_with_id(es, FILEDESCRIPTION, i) && es[i].val is Utf8
            ==> spec_attachment(es).description == Some(es[i].val->Utf8_0),
        has_no_id(es, FILEDESCRIPTION) ==> spec_attachment(es).description is None,
        forall|i: int| #[trigger] is_last_with_id(es, FILENAME, i) && es[i].val is Utf8
            ==> spec_attachment(es).name == es[i].val->Utf8_0,
        has_no_id(es, FILENAME) ==> spec_attachment(es).name.len() == 0,
        forall|i: int| #[trigger] is_last_with_id(es, FILEMIMETYPE, i) && es[i].val is Str
            ==> spec_attachment(es).mime_type == es[i].val->Str_0,
        has_no_id(es, FILEMIMETYPE) ==> spec_attachment(es).mime_type.len() == 0,
        forall|i: int| #[trigger] is_last_with_id(es, FILEDATA, i) && es[i].val is Binary
            ==> spec_attachment(es).data == es[i].val->Binary_0,
        has_no_id(es, FILEDATA) ==> spec_attachment(es).data.len() == 0,
{
    assert forall|i: int| #[trigger] is_last_with_id(es, FILEDESCRIPTION, i) && es[i].val is Utf8
        implies spec_attachment(es).description == Some(es[i].val->Utf8_0) by {
        lemma_last_value(es, FILEDESCRIPTION, i);
    }
    assert forall|i: int| #[trigger] is_last_with_id(es, FILENAME, i) && es[i].val is Utf8
        implies spec_attachment(es).name == es[i].val->Utf8_0 by {
        lemma_last_value(es, FILENAME, i);
    }
    assert forall|i: int| #[trigger] is_last_with_id(es, FILEMIMETYPE, i) && es[i].val is Str
        implies spec_attachment(es).mime_type == es[i].val->Str_0 by {
        lemma_last_value(es, FILEMIMETYPE, i);
    }
    assert forall|i: int| #[trigger] is_last_with_id(es, FILEDATA, i) && es[i].val is Binary
        implies spec_attachment(es).data == es[i].val->Binary_0 by {
        lemma_last_value(es, FILEDATA, i);
    }
    if has_no_id(es, FILEDESCRIPTION) {
        lemma_no_value(es, FILEDESCRIPTION);
    }
    if has_no_id(es, FILENAME) {
        lemma_no_value(es, FILENAME);
    }
    if has_no_id(es, FILEMIMETYPE) {
        lemma_no_value(es, FILEMIMETYPE);
    }
    if has_no_id(es, FILEDATA) {
        lemma_no_value(es, FILEDATA);
    }
}

/// An Attachments element gives one file for each AttachedFile child, in order, built from
/// that child's children whatever fields it holds: none for no children, one more for one
/// more AttachedFile, and as many as there are AttachedFile children.
pub proof fn lemma_attachments_entries(es: Seq<ElementModel>, e: ElementModel)
    ensures
        spec_attachments(Seq::empty()).len() == 0,
        spec_attachments(es.push(e)) == if is_master_with_id(e, ATTACHEDFILE) {
            spec_attachments(es).push(spec_attachment(e.val->Master_0))
        } else {
            spec_attachments(es)
        },
        spec_attachments(es).len() == es.filter(|x: ElementModel| is_master_with_id(x, ATTACHEDFILE)).len(),
{
    lemma_no_value(Seq::empty(), ATTACHEDFILE);
    lemma_masters_push(es, e, ATTACHEDFILE);
    lemma_masters_count(es, ATTACHEDFILE);
    let f = |c: Seq<ElementModel>| spec_attachment(c);
    if is_master_with_id(e, ATTACHEDFILE) {
        assert(masters(es, ATTACHEDFILE).push(e.val->Master_0).map_values(f) =~= masters(es, ATTACHEDFILE).map_values(
            f,
        ).push(f(e.val->Master_0)));
    }
}

} // verus!
