use std::sync::Arc;
use tilematch::decode::{accept_decoded, decode_batch, decode_tile, DecodeError};
use tilematch::dispatch::{
    align_up, atlas_mip_origin, atlas_origin, batch_table, buffer_words, filter_tiles,
    make_layout, widths_push_constants,
};
use tilematch::pipecache::{PipelineCache, PipelineKey};
use tilematch::tiles::{pos_key, Tile};

fn tile(x: u32, y: u32, z: u32, width: u32, bytes: Vec<u8>) -> Tile {
    Tile {
        x,
        y,
        z,
        width,
        data: Arc::new(bytes.clone()),
        smol_data: Arc::new(bytes),
    }
}

fn png_bytes(w: u32, h: u32) -> Vec<u8> {
    let mut img = image::RgbaImage::new(w, h);
    img.put_pixel(2.min(w - 1), 3.min(h - 1), image::Rgba([10, 20, 30, 255]));
    let mut bytes: Vec<u8> = Vec::new();
    image::DynamicImage::ImageRgba8(img)
        .write_to(&mut std::io::Cursor::new(&mut bytes), image::ImageFormat::Png)
        .unwrap();
    bytes
}

#[test]
fn layout_for_a_32x32_mask() {
    let l = make_layout(32, 32);
    assert_eq!(l.cell_w, 480);
    assert_eq!(l.cell_h, 480);
    assert_eq!(l.res_w, 1920);
    assert_eq!(l.res_h, 1920);
    // 1920 is already a multiple of the 64-word alignment.
    assert_eq!(l.tex_w, 1920);
    assert_eq!(buffer_words(&l), 1920 * 1920);
}

#[test]
fn row_alignment_rounds_up() {
    assert_eq!(align_up(100, 64), 128);
    assert_eq!(align_up(128, 64), 128);
    assert_eq!(align_up(1, 64), 64);
}

#[test]
fn atlas_origins_tile_the_grid() {
    assert_eq!(atlas_origin(0), (0, 0));
    assert_eq!(atlas_origin(5), (512, 512));
    assert_eq!(atlas_origin(15), (1536, 1536));
    assert_eq!(atlas_mip_origin(5), (128, 128));
}

#[test]
fn width_constants_are_padded_with_zeros() {
    let batch = vec![tile(1, 2, 7, 300, Vec::new()), tile(3, 4, 7, 500, Vec::new())];
    let w = widths_push_constants(&batch);
    assert_eq!(w.len(), 16);
    assert_eq!(&w[..2], &[300, 500]);
    assert!(w[2..].iter().all(|v| *v == 0));
    let table = batch_table(&batch);
    assert_eq!(table, vec![((1, 2, 7), 300), ((3, 4, 7), 500)]);
}

#[test]
fn forbidden_tiles_are_filtered_out() {
    let tiles = vec![
        tile(1, 2, 7, 300, Vec::new()),
        tile(3, 4, 7, 500, Vec::new()),
        tile(5, 6, 7, 400, Vec::new()),
    ];
    let forbidden = vec![pos_key((3, 4, 7))];
    let kept = filter_tiles(&tiles, &forbidden);
    assert_eq!(kept.len(), 2);
    assert_eq!(kept[0].pos(), (1, 2, 7));
    assert_eq!(kept[1].pos(), (5, 6, 7));
}

#[test]
fn decoding_recovers_dimensions_and_pixels() {
    let t = tile(1, 2, 7, 500, png_bytes(8, 6));
    let d = decode_tile(&t).expect("valid png");
    assert_eq!(d.pos, (1, 2, 7));
    assert_eq!(d.width, 500);
    assert_eq!((d.full.width, d.full.height), (8, 6));
    assert_eq!(d.full.data.len(), 4 * 8 * 6);
    // The pixel written before encoding comes back out.
    let i = 4 * (3 * 8 + 2) as usize;
    assert_eq!(&d.full.data[i..i + 4], &[10, 20, 30, 255]);
    // A plain zero pixel stayed zero.
    assert_eq!(&d.full.data[0..3], &[0, 0, 0]);
}

#[test]
fn undecodable_bytes_are_a_fatal_corpus_error() {
    let batch = vec![
        tile(1, 2, 7, 500, png_bytes(4, 4)),
        tile(3, 4, 7, 500, vec![1, 2, 3]),
    ];
    match decode_batch(&batch) {
        Err(DecodeError::Undecodable(i)) => assert_eq!(i, 1),
        other => panic!("expected a decode failure, got {:?}", other.is_ok()),
    }
}

#[test]
fn decode_batch_keeps_corpus_order() {
    let batch = vec![
        tile(1, 2, 7, 500, png_bytes(4, 4)),
        tile(3, 4, 7, 400, png_bytes(6, 2)),
    ];
    let out = decode_batch(&batch).expect("valid batch");
    assert_eq!(out.len(), 2);
    assert_eq!(out[0].pos, (1, 2, 7));
    assert_eq!(out[1].pos, (3, 4, 7));
    assert_eq!((out[1].full.width, out[1].full.height), (6, 2));
}

#[test]
fn acceptance_gate_is_exact() {
    let full = Some((2u32, 2u32, vec![7u8; 16]));
    let mip = Some((1u32, 1u32, vec![9u8; 4]));
    // both decoded with usable dimensions: accepted, pixels passed through
    let d = accept_decoded((1, 2, 3), 400, full.clone(), mip.clone()).expect("usable");
    assert_eq!(d.pos, (1, 2, 3));
    assert_eq!(d.width, 400);
    assert_eq!((d.full.width, d.full.height), (2, 2));
    assert_eq!(d.full.data, vec![7u8; 16]);
    assert_eq!(d.mip.data, vec![9u8; 4]);
    // a failed decode of either representation is Undecodable
    assert!(matches!(
        accept_decoded((1, 2, 3), 400, None, mip.clone()),
        Err(DecodeError::Undecodable(0))
    ));
    assert!(matches!(
        accept_decoded((1, 2, 3), 400, full.clone(), None),
        Err(DecodeError::Undecodable(0))
    ));
    // an out-of-range dimension is BadDimensions
    let huge = Some((5000u32, 1u32, vec![0u8; 4 * 5000]));
    assert!(matches!(
        accept_decoded((1, 2, 3), 400, huge, mip),
        Err(DecodeError::BadDimensions(0))
    ));
}

#[test]
fn pipeline_cache_memoizes_and_keeps_stale_on_failed_reload() {
    let mut c = PipelineCache::new();
    let key = PipelineKey { kernel: 1, format: 2, inputs: 3 };
    assert_eq!(c.lookup(key), None);
    c.install(key, 77);
    assert_eq!(c.lookup(key), Some(77));
    // hot reload fails: the stale pipeline is silently kept
    c.refresh(key, None);
    assert_eq!(c.lookup(key), Some(77));
    // hot reload succeeds: replaced
    c.refresh(key, Some(88));
    assert_eq!(c.lookup(key), Some(88));
    let other = PipelineKey { kernel: 9, format: 2, inputs: 3 };
    assert_eq!(c.lookup(other), None);
}

#[test]
fn context_image_samples_the_chosen_crop() {
    let mut data = vec![0u8; 4 * 8 * 8];
    // tile pixel (5, 6) carries a marker color
    let i = 4 * (6 * 8 + 5);
    data[i] = 9;
    data[i + 1] = 8;
    data[i + 2] = 7;
    let t = tilematch::tiles::TileImage::new((1, 2, 3), 8, 8, data);
    // 4x4 mask gives a 1x1 context; zoom 1.0 samples (5, 6) directly
    let ctx = tilematch::dispatch::context_image(&t, 4, 4, 5, 6, 0x3C00);
    assert_eq!(ctx, vec![9, 8, 7, 255]);
    // offsets past the edge clamp to the last pixel
    let ctx2 = tilematch::dispatch::context_image(&t, 4, 4, 100, 100, 0x3C00);
    assert_eq!(ctx2, vec![0, 0, 0, 255]);
}
