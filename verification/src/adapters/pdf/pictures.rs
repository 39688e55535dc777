//! The pictures of a drawing as objects of a PDF, each embedded once however
//! often it is placed.
use crate::adapters::drawing::{is_measurable, picture_named, recorded_sizes, calls_below, Pictures};
use crate::adapters::pdf::images::{
    can_be_masked, declared_components, declared_size, jpeg_dict, jpeg_object, jpeg_size,
    jpeg_stream, masked_jpeg_name, masked_objects, push_resource, raster_dict, raster_object,
    resource_entry, stream_of, tagged, tagged_name,
};
use crate::adapters::pdf::words::texts;
use crate::adapters::pdf::writer::{stream_body, Writer};
use crate::domain::page::Page;
use crate::domain::rendering::{pairing, Image, Metafile, MetafileModel, Source};
use crate::infrastructure::deflate::zlib_stream;
use crate::infrastructure::jpeg::jpeg_info;
use vstd::prelude::*;
use vstd::string::*;

verus! {

/// The objects of the file, the image resources of the page, and the name of
/// each picture of a list; an empty one where it has no object.
pub struct Embedding {
    pub objects: Seq<Option<Seq<u8>>>,
    pub resources: Seq<char>,
    pub names: Seq<Seq<char>>,
}

/// Picture `k` gets an object and a name.
pub open spec fn embedded(e: Embedding, k: int, name: Seq<char>, body: Seq<u8>) -> Embedding {
    Embedding {
        objects: e.objects.push(Some(body)),
        resources: e.resources + resource_entry(name, e.objects.len() + 1),
        names: e.names.update(k, name),
    }
}

/// The object of a stored picture.
pub open spec fn jpeg_body(stream: Seq<u8>, page: Page) -> Seq<u8> {
    let own = jpeg_info(stream);
    stream_body(jpeg_dict(declared_size(own, page.pixels), declared_components(own)), stream)
}

/// The stored pictures that the first `n` calls pick are embedded.
pub open spec fn stored_embedded(
    e: Embedding,
    data: Seq<u8>,
    stored: Seq<Page>,
    picks: Seq<Option<usize>>,
    tag: Seq<char>,
    n: int,
) -> Embedding
    decreases n,
{
    if n <= 0 {
        e
    } else {
        let b = stored_embedded(e, data, stored, picks, tag, n - 1);
        match picks[n - 1] {
            Some(k) => if k < stored.len() && b.names[k as int].len() == 0 {
                match jpeg_stream(data, Some(stored[k as int].data)) {
                    Some(s) => embedded(
                        b,
                        k as int,
                        tagged(tag, "Pc"@, k as nat),
                        jpeg_body(s, stored[k as int]),
                    ),
                    None => b,
                }
            } else {
                b
            },
            None => b,
        }
    }
}

/// The bitmaps that the first `n` images draw are embedded.
pub open spec fn rasters_embedded(e: Embedding, m: MetafileModel, tag: Seq<char>, n: int) -> Embedding
    decreases n,
{
    if n <= 0 {
        e
    } else {
        let b = rasters_embedded(e, m, tag, n - 1);
        match m.images[n - 1].source {
            Source::Inline(k) => if k < m.rasters.len() && b.names[k as int].len() == 0 {
                let r = m.rasters[k as int];
                embedded(
                    b,
                    k as int,
                    tagged(tag, "Ra"@, k as nat),
                    stream_body(raster_dict(r), zlib_stream(r.rows)),
                )
            } else {
                b
            },
            Source::Stored { .. } => b,
        }
    }
}

/// The masked pictures that start among the first `n` images are embedded; the
/// names are those of the images.
pub open spec fn masked_embedded(
    e: Embedding,
    data: Seq<u8>,
    m: MetafileModel,
    stored: Seq<Page>,
    masks: Seq<Option<usize>>,
    tag: Seq<char>,
    n: int,
) -> Embedding
    decreases n,
{
    if n <= 0 {
        e
    } else {
        let b = masked_embedded(e, data, m, stored, masks, tag, n - 1);
        match (masks[n - 1], m.images[n - 1].source) {
            (Some(mask), Source::Stored { ordinal, .. }) => match picture_named(m, stored, ordinal) {
                Some(k) => if k < stored.len() && mask < m.rasters.len() && can_be_masked(
                    data,
                    Some(stored[k as int].data),
                    m.rasters[mask as int],
                    m.images[n - 1].src,
                ) {
                    let name = tagged(tag, "Pm"@, (n - 1) as nat);
                    Embedding {
                        objects: b.objects + masked_objects(
                            jpeg_stream(data, Some(stored[k as int].data))->0,
                            m.rasters[mask as int],
                            m.images[n - 1].src,
                            b.objects.len() + 1,
                        ),
                        resources: b.resources + resource_entry(name, b.objects.len() + 2),
                        names: b.names.update(n - 1, name),
                    }
                } else {
                    b
                },
                None => b,
            },
            _ => b,
        }
    }
}

/// As many empty names.
pub open spec fn no_names(n: nat) -> Seq<Seq<char>> {
    Seq::new(n, |i: int| Seq::<char>::empty())
}

/// The name that an image is drawn by when it is not masked.
pub open spec fn plain_name(
    m: MetafileModel,
    stored: Seq<Page>,
    stored_names: Seq<Seq<char>>,
    raster_names: Seq<Seq<char>>,
    i: int,
) -> Seq<char> {
    match m.images[i].source {
        Source::Stored { ordinal, .. } => match picture_named(m, stored, ordinal) {
            Some(k) => if k < stored_names.len() {
                stored_names[k as int]
            } else {
                Seq::empty()
            },
            None => Seq::empty(),
        },
        Source::Inline(k) => if k < raster_names.len() {
            raster_names[k as int]
        } else {
            Seq::empty()
        },
    }
}

/// What embedding the pictures of a drawing comes to: the objects, the
/// resources, and the name that each image is drawn by.
pub open spec fn pictures_embedded(
    objects: Seq<Option<Seq<u8>>>,
    resources: Seq<char>,
    data: Seq<u8>,
    m: MetafileModel,
    stored: Seq<Page>,
    masks: Seq<Option<usize>>,
    tag: Seq<char>,
) -> Embedding {
    let calls = calls_below(m.images, m.images.len() as int);
    let picks = pairing(calls, recorded_sizes(stored));
    let a = stored_embedded(
        Embedding { objects, resources, names: no_names(stored.len()) },
        data,
        stored,
        picks,
        tag,
        picks.len() as int,
    );
    let b = rasters_embedded(
        Embedding { objects: a.objects, resources: a.resources, names: no_names(m.rasters.len()) },
        m,
        tag,
        m.images.len() as int,
    );
    masked_embedded(
        Embedding {
            objects: b.objects,
            resources: b.resources,
            names: Seq::new(
                m.images.len(),
                |i: int| plain_name(m, stored, a.names, b.names, i),
            ),
        },
        data,
        m,
        stored,
        masks,
        tag,
        m.images.len() as int,
    )
}

fn empty_names(n: usize) -> (v: Vec<String>)
    ensures
        texts(v@) == no_names(n as nat),
        v@.len() == n,
{
    let mut v: Vec<String> = Vec::new();
    let mut i: usize = 0;
    while i < n
        invariant
            i <= n,
            v@.len() == i,
            forall|k: int| 0 <= k < i ==> (#[trigger] v@[k])@ == Seq::<char>::empty(),
        decreases n - i,
    {
        let s = String::new();
        proof {
            assert(s@ =~= Seq::<char>::empty());
        }
        v.push(s);
        i += 1;
    }
    proof {
        assert(texts(v@) =~= no_names(n as nat));
    }
    v
}

fn set_name(v: &mut Vec<String>, k: usize, name: String)
    requires
        k < old(v)@.len(),
    ensures
        texts(final(v)@) == texts(old(v)@).update(k as int, name@),
        final(v)@.len() == old(v)@.len(),
{
    let ghost before = texts(v@);
    let ghost text = name@;
    v.set(k, name);
    proof {
        assert(texts(v@) =~= before.update(k as int, text));
    }
}

fn name_missing(v: &Vec<String>, k: usize) -> (r: bool)
    requires
        k < v@.len(),
    ensures
        r == (texts(v@)[k as int].len() == 0),
{
    proof {
        assert(texts(v@)[k as int] == v@[k as int]@);
    }
    v[k].as_str().unicode_len() == 0
}

fn embed_stored(
    w: &mut Writer,
    data: &[u8],
    stored: &Vec<&Page>,
    picks: &Vec<Option<usize>>,
    tag: &str,
    xobjects: &mut String,
) -> (names: Vec<String>)
    ensures
        ({
            let e = stored_embedded(
                Embedding {
                    objects: old(w)@,
                    resources: old(xobjects)@,
                    names: no_names(stored@.len()),
                },
                data@,
                stored@.unref(),
                picks@,
                tag@,
                picks@.len() as int,
            );
            &&& final(w)@ == e.objects
            &&& final(xobjects)@ == e.resources
            &&& texts(names@) == e.names
        }),
{
    let ghost start = Embedding {
        objects: w@,
        resources: xobjects@,
        names: no_names(stored@.len()),
    };
    let ghost pages = stored@.unref();
    let mut names = empty_names(stored.len());
    let mut i: usize = 0;
    while i < picks.len()
        invariant
            i <= picks@.len(),
            pages == stored@.unref(),
            names@.len() == stored@.len(),
            (Embedding { objects: w@, resources: xobjects@, names: texts(names@) })
                == stored_embedded(start, data@, pages, picks@, tag@, i as int),
        decreases picks@.len() - i,
    {
        if let Some(k) = picks[i] {
            if k < stored.len() && name_missing(&names, k) {
                proof {
                    assert(pages[k as int] == *stored@[k as int]);
                }
                if let Some(stream) = stream_of(data, stored[k]) {
                    let (size, components) = jpeg_size(stream, stored[k].pixels);
                    let id: usize = jpeg_object(w, stream, size, components);
                    let name = tagged_name(tag, "Pc", k);
                    push_resource(xobjects, name.as_str(), id);
                    set_name(&mut names, k, name);
                }
            }
        }
        i += 1;
    }
    names
}

fn embed_rasters(w: &mut Writer, meta: &Metafile, tag: &str, xobjects: &mut String) -> (names: Vec<
    String,
>)
    ensures
        ({
            let e = rasters_embedded(
                Embedding {
                    objects: old(w)@,
                    resources: old(xobjects)@,
                    names: no_names(meta@.rasters.len()),
                },
                meta@,
                tag@,
                meta@.images.len() as int,
            );
            &&& final(w)@ == e.objects
            &&& final(xobjects)@ == e.resources
            &&& texts(names@) == e.names
        }),
{
    let ghost start = Embedding {
        objects: w@,
        resources: xobjects@,
        names: no_names(meta@.rasters.len()),
    };
    let mut names = empty_names(meta.rasters.len());
    let mut i: usize = 0;
    while i < meta.images.len()
        invariant
            i <= meta.images@.len(),
            meta@.images == meta.images@,
            meta@.rasters.len() == meta.rasters@.len(),
            names@.len() == meta.rasters@.len(),
            (Embedding { objects: w@, resources: xobjects@, names: texts(names@) })
                == rasters_embedded(start, meta@, tag@, i as int),
        decreases meta.images@.len() - i,
    {
        if let Source::Inline(k) = meta.images[i].source {
            if k < meta.rasters.len() && name_missing(&names, k) {
                proof {
                    assert(meta@.rasters[k as int] == meta.rasters@[k as int]@);
                }
                let id: usize = raster_object(w, &meta.rasters[k]);
                let name = tagged_name(tag, "Ra", k);
                push_resource(xobjects, name.as_str(), id);
                set_name(&mut names, k, name);
            }
        }
        i += 1;
    }
    names
}

fn plain_names(
    meta: &Metafile,
    pictures: &Pictures,
    stored: Ghost<Seq<Page>>,
    stored_names: &Vec<String>,
    raster_names: &Vec<String>,
) -> (names: Vec<String>)
    requires
        pictures.of(meta@, stored@),
    ensures
        texts(names@) == Seq::new(
            meta@.images.len(),
            |i: int|
                plain_name(meta@, stored@, texts(stored_names@), texts(raster_names@), i),
        ),
{
    let mut names: Vec<String> = Vec::new();
    let mut i: usize = 0;
    while i < meta.images.len()
        invariant
            i <= meta.images@.len(),
            pictures.of(meta@, stored@),
            names@.len() == i,
            forall|k: int|
                0 <= k < i ==> (#[trigger] names@[k])@ == plain_name(
                    meta@,
                    stored@,
                    texts(stored_names@),
                    texts(raster_names@),
                    k,
                ),
        decreases meta.images@.len() - i,
    {
        let mut name = String::new();
        proof {
            assert(name@ =~= Seq::<char>::empty());
        }
        match meta.images[i].source {
            Source::Stored { ordinal, .. } => if let Some(k) = pictures.pick(ordinal) {
                if k < stored_names.len() {
                    proof {
                        assert(texts(stored_names@)[k as int] == stored_names@[k as int]@);
                    }
                    name = stored_names[k].clone();
                }
            },
            Source::Inline(k) => if k < raster_names.len() {
                proof {
                    assert(texts(raster_names@)[k as int] == raster_names@[k as int]@);
                }
                name = raster_names[k].clone();
            },
        }
        names.push(name);
        i += 1;
    }
    proof {
        assert(texts(names@) =~= Seq::new(
            meta@.images.len(),
            |i: int|
                plain_name(meta@, stored@, texts(stored_names@), texts(raster_names@), i),
        ));
    }
    names
}

fn embed_masked(
    w: &mut Writer,
    data: &[u8],
    meta: &Metafile,
    stored: &Vec<&Page>,
    pictures: &Pictures,
    masks: &Vec<Option<usize>>,
    tag: &str,
    xobjects: &mut String,
    names: &mut Vec<String>,
)
    requires
        pictures.of(meta@, stored@.unref()),
        is_measurable(meta.rasters@),
        masks@.len() == meta.images@.len(),
        old(names)@.len() == meta.images@.len(),
    ensures
        ({
            let e = masked_embedded(
                Embedding {
                    objects: old(w)@,
                    resources: old(xobjects)@,
                    names: texts(old(names)@),
                },
                data@,
                meta@,
                stored@.unref(),
                masks@,
                tag@,
                meta@.images.len() as int,
            );
            &&& final(w)@ == e.objects
            &&& final(xobjects)@ == e.resources
            &&& texts(final(names)@) == e.names
        }),
{
    let ghost start = Embedding { objects: w@, resources: xobjects@, names: texts(names@) };
    let ghost pages = stored@.unref();
    let mut i: usize = 0;
    while i < meta.images.len()
        invariant
            i <= meta.images@.len(),
            pages == stored@.unref(),
            meta@.images == meta.images@,
            meta@.rasters.len() == meta.rasters@.len(),
            pictures.of(meta@, pages),
            is_measurable(meta.rasters@),
            masks@.len() == meta.images@.len(),
            names@.len() == meta.images@.len(),
            (Embedding { objects: w@, resources: xobjects@, names: texts(names@) })
                == masked_embedded(start, data@, meta@, pages, masks@, tag@, i as int),
        decreases meta.images@.len() - i,
    {
        let image: &Image = &meta.images[i];
        if let (Some(mask), Source::Stored { ordinal, .. }) = (masks[i], image.source) {
            if let Some(k) = pictures.pick(ordinal) {
                if k < stored.len() && mask < meta.rasters.len() {
                    proof {
                        assert(pages[k as int] == *stored@[k as int]);
                        assert(meta@.rasters[mask as int] == meta.rasters@[mask as int]@);
                    }
                    let named = masked_jpeg_name(
                        w,
                        data,
                        Some(stored[k]),
                        &meta.rasters[mask],
                        image.src,
                        tag,
                        i,
                        xobjects,
                    );
                    if let Some(name) = named {
                        set_name(names, i, name);
                    }
                }
            }
        }
        i += 1;
    }
}

/// Embeds the pictures of a drawing, and gives the name that each image is
/// drawn by; an empty one where it cannot be drawn.
pub fn embed_pictures(
    w: &mut Writer,
    data: &[u8],
    meta: &Metafile,
    stored: &Vec<&Page>,
    pictures: &Pictures,
    masks: &Vec<Option<usize>>,
    tag: &str,
    xobjects: &mut String,
) -> (names: Vec<String>)
    requires
        pictures.of(meta@, stored@.unref()),
        is_measurable(meta.rasters@),
        masks@.len() == meta.images@.len(),
    ensures
        ({
            let e = pictures_embedded(
                old(w)@,
                old(xobjects)@,
                data@,
                meta@,
                stored@.unref(),
                masks@,
                tag@,
            );
            &&& final(w)@ == e.objects
            &&& final(xobjects)@ == e.resources
            &&& texts(names@) == e.names
        }),
{
    let stored_names = embed_stored(w, data, stored, &pictures.picks, tag, xobjects);
    let raster_names = embed_rasters(w, meta, tag, xobjects);
    let mut names = plain_names(
        meta,
        pictures,
        Ghost(stored@.unref()),
        &stored_names,
        &raster_names,
    );
    proof {
        assert(texts(names@).len() == names@.len());
    }
    embed_masked(w, data, meta, stored, pictures, masks, tag, xobjects, &mut names);
    names
}

/// The objects of one file are the first of another.
pub open spec fn starts_with(all: Seq<Option<Seq<u8>>>, first: Seq<Option<Seq<u8>>>) -> bool {
    first.len() <= all.len() && all.take(first.len() as int) == first
}

proof fn lemma_starts_with_more(
    all: Seq<Option<Seq<u8>>>,
    first: Seq<Option<Seq<u8>>>,
    more: Seq<Option<Seq<u8>>>,
)
    requires
        starts_with(all, first),
    ensures
        starts_with(all + more, first),
        more.len() > 0 ==> starts_with(all.push(more[0]), first),
{
    assert((all + more).take(first.len() as int) =~= first);
    if more.len() > 0 {
        assert(all.push(more[0]).take(first.len() as int) =~= first);
    }
}

proof fn lemma_stored_keep_objects(
    e: Embedding,
    data: Seq<u8>,
    stored: Seq<Page>,
    picks: Seq<Option<usize>>,
    tag: Seq<char>,
    n: int,
)
    ensures
        starts_with(stored_embedded(e, data, stored, picks, tag, n).objects, e.objects),
    decreases n,
{
    if n <= 0 {
        assert(e.objects.take(e.objects.len() as int) =~= e.objects);
    } else {
        lemma_stored_keep_objects(e, data, stored, picks, tag, n - 1);
        let b = stored_embedded(e, data, stored, picks, tag, n - 1);
        let c = stored_embedded(e, data, stored, picks, tag, n);
        if c != b {
            lemma_starts_with_more(b.objects, e.objects, seq![c.objects.last()]);
        }
    }
}

proof fn lemma_rasters_keep_objects(e: Embedding, m: MetafileModel, tag: Seq<char>, n: int)
    ensures
        starts_with(rasters_embedded(e, m, tag, n).objects, e.objects),
    decreases n,
{
    if n <= 0 {
        assert(e.objects.take(e.objects.len() as int) =~= e.objects);
    } else {
        lemma_rasters_keep_objects(e, m, tag, n - 1);
        let b = rasters_embedded(e, m, tag, n - 1);
        let c = rasters_embedded(e, m, tag, n);
        if c != b {
            lemma_starts_with_more(b.objects, e.objects, seq![c.objects.last()]);
        }
    }
}

proof fn lemma_masked_keep_objects(
    e: Embedding,
    data: Seq<u8>,
    m: MetafileModel,
    stored: Seq<Page>,
    masks: Seq<Option<usize>>,
    tag: Seq<char>,
    n: int,
)
    ensures
        starts_with(masked_embedded(e, data, m, stored, masks, tag, n).objects, e.objects),
    decreases n,
{
    if n <= 0 {
        assert(e.objects.take(e.objects.len() as int) =~= e.objects);
    } else {
        lemma_masked_keep_objects(e, data, m, stored, masks, tag, n - 1);
        let b = masked_embedded(e, data, m, stored, masks, tag, n - 1);
        let c = masked_embedded(e, data, m, stored, masks, tag, n);
        if c != b {
            let more = c.objects.skip(b.objects.len() as int);
            assert(c.objects =~= b.objects + more);
            lemma_starts_with_more(b.objects, e.objects, more);
        }
    }
}

/// Embedding the pictures of a drawing leaves the objects that were there.
pub proof fn law_embedding_keeps_objects(
    objects: Seq<Option<Seq<u8>>>,
    resources: Seq<char>,
    data: Seq<u8>,
    m: MetafileModel,
    stored: Seq<Page>,
    masks: Seq<Option<usize>>,
    tag: Seq<char>,
)
    ensures
        starts_with(
            pictures_embedded(objects, resources, data, m, stored, masks, tag).objects,
            objects,
        ),
{
    let calls = calls_below(m.images, m.images.len() as int);
    let picks = pairing(calls, recorded_sizes(stored));
    let none = Embedding { objects, resources, names: no_names(stored.len()) };
    let a = stored_embedded(none, data, stored, picks, tag, picks.len() as int);
    lemma_stored_keep_objects(none, data, stored, picks, tag, picks.len() as int);
    let a2 = Embedding {
        objects: a.objects,
        resources: a.resources,
        names: no_names(m.rasters.len()),
    };
    let b = rasters_embedded(a2, m, tag, m.images.len() as int);
    lemma_rasters_keep_objects(a2, m, tag, m.images.len() as int);
    let b2 = Embedding {
        objects: b.objects,
        resources: b.resources,
        names: Seq::new(
            m.images.len(),
            |i: int| plain_name(m, stored, a.names, b.names, i),
        ),
    };
    let c = masked_embedded(b2, data, m, stored, masks, tag, m.images.len() as int);
    lemma_masked_keep_objects(b2, data, m, stored, masks, tag, m.images.len() as int);
    assert(b.objects.take(objects.len() as int) =~= a.objects.take(objects.len() as int));
    assert(c.objects.take(objects.len() as int) =~= b.objects.take(objects.len() as int));
}

} // verus!
