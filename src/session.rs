use vstd::prelude::*;
use crate::chunks::DecodeError;
use crate::decimal::{entry_of, parse_entry, Entry};
use crate::dimensions::{pretty_number, pretty_text, q, DimensionModel, Ratio, ValidationError, density_spec};
use crate::encode::{create_pattern_png, encodable, encodable_size, is_encoding, EncodeError};
use crate::image::{load_spec, InputImage};
use crate::raster::RasterImage;
use crate::tiling::tileable;

verus! {

/// Where the pattern job stands.
#[derive(Clone, Copy, Debug, PartialEq, Eq, Structural)]
pub enum ProcessState {
    Idle,
    Running,
    Finished,
}

/// The problem shown to the user.
#[derive(Debug)]
pub enum SessionError {
    /// The file could not be read or its pixels decoded; the text says why.
    Load(String),
    /// The decoded raster is empty or does not match its size.
    BadBitmap,
    /// The file's chunks could not be read.
    Decode(DecodeError),
    /// The entered values cannot be rendered.
    InvalidValues(ValidationError),
    /// The pattern could not be encoded.
    Encode(EncodeError),
    /// The pattern could not be written; the text says why.
    Write(String),
}

/// One of the four values that the user edits.
#[derive(Clone, Copy, Debug, PartialEq, Eq, Structural)]
pub enum Field {
    RepeatX,
    RepeatY,
    DimMmX,
    DimMmY,
}

/// The value whose text follows when `f` is edited.
pub open spec fn paired(f: Field) -> Field {
    match f {
        Field::RepeatX => Field::DimMmX,
        Field::RepeatY => Field::DimMmY,
        Field::DimMmX => Field::RepeatX,
        Field::DimMmY => Field::RepeatY,
    }
}

/// Value `f` of the model.
pub open spec fn field_value(m: DimensionModel, f: Field) -> Ratio {
    match f {
        Field::RepeatX => m.repeat_x,
        Field::RepeatY => m.repeat_y,
        Field::DimMmX => m.dim_mm_x,
        Field::DimMmY => m.dim_mm_y,
    }
}

/// The model with value `f` set to `v` and its paired value recomputed.
pub open spec fn with_field(m: DimensionModel, f: Field, v: Ratio) -> DimensionModel {
    match f {
        Field::RepeatX => m.with_repeat_x(v),
        Field::RepeatY => m.with_repeat_y(v),
        Field::DimMmX => m.with_dim_mm_x(v),
        Field::DimMmY => m.with_dim_mm_y(v),
    }
}

/// What happened outside the session.
pub enum Event {
    /// The user typed `text` into field `f`.
    Edited(Field, Vec<u8>),
    /// The user asked for the pattern.
    PressedStartButton,
    /// A file was read and its pixels decoded.
    FileLoaded { filepath: String, bitmap: RasterImage, file_bytes: Vec<u8> },
    /// A file could not be read or decoded.
    LoadFailed(String),
    /// Writing the pattern file ended, well or not.
    PatternWritten(Result<(), String>),
}

/// What the caller is asked to do.
pub enum Action {
    Nothing,
    /// Write the encoded pattern `png` to a file named after the image and `suffix`.
    WritePattern { suffix: Vec<u8>, png: Vec<u8> },
}

/// The state of one session: the loaded image, the dimension model, the text
/// of each field, the job's progress and the last problem.
pub struct Session {
    pub image: Option<InputImage>,
    pub model: Option<DimensionModel>,
    pub repeat_x_text: Vec<u8>,
    pub repeat_y_text: Vec<u8>,
    pub dim_mm_x_text: Vec<u8>,
    pub dim_mm_y_text: Vec<u8>,
    pub process_state: ProcessState,
    pub current_error: Option<SessionError>,
    /// The last entry on the horizontal axis could not be rendered.
    pub rejected_x: bool,
    /// The last entry on the vertical axis could not be rendered.
    pub rejected_y: bool,
}

/// Field `f` belongs to the horizontal axis.
pub open spec fn is_horizontal(f: Field) -> bool {
    f == Field::RepeatX || f == Field::DimMmX
}

/// Whether the last entry on the axis of `f` was rejected.
pub open spec fn rejected_on(s: Session, f: Field) -> bool {
    if is_horizontal(f) {
        s.rejected_x
    } else {
        s.rejected_y
    }
}

/// The rejection flag of the other axis than that of `f` is kept.
pub open spec fn other_axis_kept(pre: Session, post: Session, f: Field) -> bool {
    if is_horizontal(f) {
        post.rejected_y == pre.rejected_y
    } else {
        post.rejected_x == pre.rejected_x
    }
}

/// After the user typed `text` into field `f`: the text is kept as typed.
/// With an image loaded, a value that the model can hold is taken, the paired
/// field shows the recomputed value and the axis is cleared; a value that
/// reads as a number but cannot be rendered (negative, not a number,
/// infinite, too large) marks the axis as rejected. Either way the job goes
/// back to idle. Text that does not read as a number changes nothing else.
pub open spec fn edited(pre: Session, post: Session, f: Field, text: Seq<u8>) -> bool {
    &&& post.text_of(f) == text
    &&& post.image == pre.image
    &&& post.current_error == pre.current_error
    &&& other_axis_kept(pre, post, f)
    &&& match (pre.model, entry_of(text)) {
        (Some(m), Some(Entry::Number(v))) => {
            &&& post.model == Some(with_field(m, f, v))
            &&& post.text_of(paired(f)) == pretty_number(q(field_value(with_field(m, f, v), paired(f))))
            &&& post.process_state == ProcessState::Idle
            &&& !rejected_on(post, f)
        },
        (Some(m), Some(Entry::Rejected)) => {
            &&& post.model == pre.model
            &&& post.text_of(paired(f)) == pre.text_of(paired(f))
            &&& post.process_state == ProcessState::Idle
            &&& rejected_on(post, f)
        },
        _ => {
            &&& post.model == pre.model
            &&& post.text_of(paired(f)) == pre.text_of(paired(f))
            &&& post.process_state == pre.process_state
            &&& rejected_on(post, f) == rejected_on(pre, f)
        },
    }
    &&& forall|g: Field| g != f && g != paired(f) ==> #[trigger] post.text_of(g) == pre.text_of(g)
}

/// After a file was read and decoded into `bitmap`: where the raster is
/// usable and the file's chunks read well, the image replaces the loaded one,
/// the model starts over with five repeats each way, every field shows its
/// value and the job is idle; otherwise only the problem is recorded.
pub open spec fn loaded(pre: Session, post: Session, filepath: String, bitmap: RasterImage, file_bytes: Seq<u8>) -> bool {
    if !tileable(bitmap) {
        &&& post.current_error == Some(SessionError::BadBitmap)
        &&& post.same_content(&pre)
        &&& post.process_state == pre.process_state
    } else {
        match load_spec(file_bytes) {
            Err(e) => {
                &&& post.current_error == Some(SessionError::Decode(e))
                &&& post.same_content(&pre)
                &&& post.process_state == pre.process_state
            },
            Ok((chunks, ppm)) => {
                &&& post.image matches Some(img) && img.filepath == filepath && img.bitmap == bitmap
                    && img.png_metadata@ == chunks && img.pixels_per_meter == ppm
                &&& post.model == Some(DimensionModel::initial(bitmap.width, bitmap.height, ppm))
                &&& forall|f: Field| #[trigger] post.text_of(f) == pretty_number(
                    q(field_value(DimensionModel::initial(bitmap.width, bitmap.height, ppm), f)),
                )
                &&& post.process_state == ProcessState::Idle
                &&& post.current_error is None
                &&& !post.rejected_x
                &&& !post.rejected_y
            },
        }
    }
}

/// After the user asked for the pattern: nothing without an image; a
/// rejected entry, or values that cannot be rendered, are reported; otherwise the pattern is composed
/// and encoded, and the caller is asked to write the encoding (the pattern's
/// header and the image's chunks verbatim, then image data) under the suffix
/// that records the values; where encoding fails, the encoder's problem is
/// reported.
pub open spec fn started(pre: Session, post: Session, action: Action) -> bool {
    &&& post.same_content(&pre)
    &&& match pre.model {
        None => {
            &&& action is Nothing
            &&& post.process_state == pre.process_state
            &&& post.current_error == pre.current_error
        },
        Some(m) => if pre.rejected_x || pre.rejected_y {
            &&& action is Nothing
            &&& post.current_error == Some(SessionError::InvalidValues(ValidationError::Unusable))
            &&& post.process_state == pre.process_state
        } else {
            match m.output_size_spec() {
            Err(e) => {
                &&& action is Nothing
                &&& post.current_error == Some(SessionError::InvalidValues(e))
                &&& post.process_state == pre.process_state
            },
            Ok((w, h)) => if !encodable_size(w, h) {
                &&& action is Nothing
                &&& post.current_error matches Some(SessionError::Encode(EncodeError::TooLarge))
                &&& post.process_state == ProcessState::Idle
            } else {
                let entries = pre.image->Some_0.png_metadata.entries_view();
                &&& action matches Action::WritePattern { suffix, png } ==> {
                    &&& suffix@ == m.output_suffix_spec()
                    &&& is_encoding(png@, w, h, entries)
                    &&& post.process_state == ProcessState::Running
                    &&& post.current_error is None
                }
                &&& action is Nothing ==> {
                    &&& post.current_error matches Some(SessionError::Encode(e)) && e is Codec
                    &&& post.process_state == ProcessState::Idle
                }
                &&& !encodable(w, h, entries) ==> action is Nothing
            },
        }},
    }
}

/// Whether `f` belongs to the horizontal axis.
fn is_x_axis(f: Field) -> (r: bool)
    ensures
        r == is_horizontal(f),
{
    match f {
        Field::RepeatX | Field::DimMmX => true,
        _ => false,
    }
}

impl Session {
    /// The text of field `f`.
    pub open spec fn text_of(&self, f: Field) -> Seq<u8> {
        match f {
            Field::RepeatX => self.repeat_x_text@,
            Field::RepeatY => self.repeat_y_text@,
            Field::DimMmX => self.dim_mm_x_text@,
            Field::DimMmY => self.dim_mm_y_text@,
        }
    }

    /// A model exists exactly when an image is loaded, and it is the model of
    /// that image.
    pub open spec fn wf(&self) -> bool {
        match (self.image, self.model) {
            (None, None) => true,
            (Some(img), Some(m)) => {
                &&& img.wf()
                &&& m.wf()
                &&& m.source_width == img.bitmap.width
                &&& m.source_height == img.bitmap.height
                &&& q(m.pixels_per_mm) == density_spec(img.pixels_per_meter)
            },
            _ => false,
        }
    }

    /// Image, model and field texts agree between `self` and `other`.
    pub open spec fn same_content(&self, other: &Session) -> bool {
        &&& self.image == other.image
        &&& self.model == other.model
        &&& self.rejected_x == other.rejected_x
        &&& self.rejected_y == other.rejected_y
        &&& forall|f: Field| #[trigger] self.text_of(f) == other.text_of(f)
    }

    /// A session with no image.
    pub fn new() -> (r: Session)
        ensures
            r.wf(),
            r.image is None,
            r.process_state == ProcessState::Idle,
            r.current_error is None,
    {
        Session {
            image: None,
            model: None,
            repeat_x_text: Vec::new(),
            repeat_y_text: Vec::new(),
            dim_mm_x_text: Vec::new(),
            dim_mm_y_text: Vec::new(),
            process_state: ProcessState::Idle,
            current_error: None,
            rejected_x: false,
            rejected_y: false,
        }
    }

    fn set_text(&mut self, f: Field, text: Vec<u8>)
        ensures
            final(self).text_of(f) == text@,
            forall|g: Field| g != f ==> #[trigger] final(self).text_of(g) == old(self).text_of(g),
            final(self).image == old(self).image,
            final(self).model == old(self).model,
            final(self).process_state == old(self).process_state,
            final(self).current_error == old(self).current_error,
            final(self).rejected_x == old(self).rejected_x,
            final(self).rejected_y == old(self).rejected_y,
    {
        match f {
            Field::RepeatX => self.repeat_x_text = text,
            Field::RepeatY => self.repeat_y_text = text,
            Field::DimMmX => self.dim_mm_x_text = text,
            Field::DimMmY => self.dim_mm_y_text = text,
        }
    }

    fn set_all_texts(&mut self, m: &DimensionModel)
        requires
            m.wf(),
        ensures
            forall|f: Field| #[trigger] final(self).text_of(f) == pretty_number(q(field_value(*m, f))),
            final(self).image == old(self).image,
            final(self).model == old(self).model,
            final(self).process_state == old(self).process_state,
            final(self).current_error == old(self).current_error,
            final(self).rejected_x == old(self).rejected_x,
            final(self).rejected_y == old(self).rejected_y,
    {
        self.repeat_x_text = pretty_text(m.repeat_x);
        self.repeat_y_text = pretty_text(m.repeat_y);
        self.dim_mm_x_text = pretty_text(m.dim_mm_x);
        self.dim_mm_y_text = pretty_text(m.dim_mm_y);
    }

    fn edit(&mut self, f: Field, text: Vec<u8>)
        requires
            old(self).wf(),
        ensures
            final(self).wf(),
            edited(*old(self), *final(self), f, text@),
    {
        let parsed = parse_entry(text.as_slice());
        self.set_text(f, text);
        let ghost edited = *self;
        if let (Some(_), Some(Entry::Rejected)) = (self.model, parsed) {
            self.process_state = ProcessState::Idle;
            if is_x_axis(f) {
                self.rejected_x = true;
            } else {
                self.rejected_y = true;
            }
        }
        assert forall|g: Field| #[trigger] self.text_of(g) == edited.text_of(g) by {
            assert(self.text_of(g) == edited.text_of(g));
        }
        assert(edited.text_of(paired(f)) == old(self).text_of(paired(f)));
        if let Some(mut m) = self.model {
            if let Some(Entry::Number(v)) = parsed {
                if is_x_axis(f) {
                    self.rejected_x = false;
                } else {
                    self.rejected_y = false;
                }
                match f {
                    Field::RepeatX => m.set_repeat_x(v),
                    Field::RepeatY => m.set_repeat_y(v),
                    Field::DimMmX => m.set_dim_mm_x(v),
                    Field::DimMmY => m.set_dim_mm_y(v),
                }
                let shown = match f {
                    Field::RepeatX => m.dim_mm_x,
                    Field::RepeatY => m.dim_mm_y,
                    Field::DimMmX => m.repeat_x,
                    Field::DimMmY => m.repeat_y,
                };
                self.model = Some(m);
                self.process_state = ProcessState::Idle;
                let t = pretty_text(shown);
                let ghost before = *self;
                match f {
                    Field::RepeatX => self.set_text(Field::DimMmX, t),
                    Field::RepeatY => self.set_text(Field::DimMmY, t),
                    Field::DimMmX => self.set_text(Field::RepeatX, t),
                    Field::DimMmY => self.set_text(Field::RepeatY, t),
                }
                assert(self.text_of(f) == before.text_of(f));
                assert forall|g: Field| g != paired(f) implies #[trigger] self.text_of(g) == before.text_of(g) by {
                    assert(self.text_of(g) == before.text_of(g));
                }
                assert forall|g: Field| g != paired(f) implies #[trigger] before.text_of(g) == edited.text_of(g) by {
                    assert(before.text_of(g) == edited.text_of(g));
                }
            }
        }
        assert forall|g: Field| g != f && g != paired(f) implies #[trigger] self.text_of(g) == old(self).text_of(g) by {
            assert(edited.text_of(g) == old(self).text_of(g));
        }
    }

    fn load(&mut self, filepath: String, bitmap: RasterImage, file_bytes: Vec<u8>)
        requires
            old(self).wf(),
        ensures
            final(self).wf(),
            loaded(*old(self), *final(self), filepath, bitmap, file_bytes@),
    {
        if !bitmap.is_tileable() {
            self.current_error = Some(SessionError::BadBitmap);
            return;
        }
        match InputImage::new(filepath, bitmap, file_bytes.as_slice()) {
            Err(e) => {
                self.current_error = Some(SessionError::Decode(e));
            },
            Ok(img) => {
                let m = img.dimension_model();
                self.set_all_texts(&m);
                let ghost shown = *self;
                self.image = Some(img);
                self.model = Some(m);
                self.process_state = ProcessState::Idle;
                self.current_error = None;
                self.rejected_x = false;
                self.rejected_y = false;
                assert forall|f: Field| #[trigger] self.text_of(f) == pretty_number(q(field_value(m, f))) by {
                    assert(self.text_of(f) == shown.text_of(f));
                }
            },
        }
    }

    fn start(&mut self) -> (action: Action)
        requires
            old(self).wf(),
        ensures
            final(self).wf(),
            started(*old(self), *final(self), action),
    {
        match (&self.image, self.model) {
            (Some(img), Some(m)) => {
                if self.rejected_x || self.rejected_y {
                    self.current_error = Some(SessionError::InvalidValues(ValidationError::Unusable));
                    return Action::Nothing;
                }
                match m.output_pixel_size() {
                    Err(e) => {
                        self.current_error = Some(SessionError::InvalidValues(e));
                        Action::Nothing
                    },
                    Ok((w, h)) => {
                        match create_pattern_png(&img.bitmap, &img.png_metadata, w, h) {
                            Ok(png) => {
                                let suffix = m.output_suffix();
                                self.process_state = ProcessState::Running;
                                self.current_error = None;
                                Action::WritePattern { suffix, png }
                            },
                            Err(e) => {
                                self.current_error = Some(SessionError::Encode(e));
                                self.process_state = ProcessState::Idle;
                                Action::Nothing
                            },
                        }
                    },
                }
            },
            _ => Action::Nothing,
        }
    }

    /// Applies one event and says what the caller has to do next.
    pub fn update(&mut self, event: Event) -> (action: Action)
        requires
            old(self).wf(),
        ensures
            final(self).wf(),
            match event {
                Event::Edited(f, text) => action is Nothing && edited(*old(self), *final(self), f, text@),
                Event::PressedStartButton => started(*old(self), *final(self), action),
                Event::FileLoaded { filepath, bitmap, file_bytes } => action is Nothing && loaded(
                    *old(self),
                    *final(self),
                    filepath,
                    bitmap,
                    file_bytes@,
                ),
                Event::LoadFailed(message) => {
                    &&& action is Nothing
                    &&& final(self).current_error == Some(SessionError::Load(message))
                    &&& final(self).same_content(old(self))
                    &&& final(self).process_state == old(self).process_state
                },
                Event::PatternWritten(Ok(())) => {
                    &&& action is Nothing
                    &&& final(self).current_error is None
                    &&& final(self).same_content(old(self))
                    &&& final(self).process_state == ProcessState::Finished
                },
                Event::PatternWritten(Err(message)) => {
                    &&& action is Nothing
                    &&& final(self).current_error == Some(SessionError::Write(message))
                    &&& final(self).same_content(old(self))
                    &&& final(self).process_state == ProcessState::Idle
                },
            },
    {
        match event {
            Event::Edited(f, text) => {
                self.edit(f, text);
                Action::Nothing
            },
            Event::PressedStartButton => self.start(),
            Event::FileLoaded { filepath, bitmap, file_bytes } => {
                self.load(filepath, bitmap, file_bytes);
                Action::Nothing
            },
            Event::LoadFailed(message) => {
                self.current_error = Some(SessionError::Load(message));
                Action::Nothing
            },
            Event::PatternWritten(Ok(())) => {
                self.current_error = None;
                self.process_state = ProcessState::Finished;
                Action::Nothing
            },
            Event::PatternWritten(Err(message)) => {
                self.current_error = Some(SessionError::Write(message));
                self.process_state = ProcessState::Idle;
                Action::Nothing
            },
        }
    }
}

} // verus!
