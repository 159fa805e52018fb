//! Textures: addressing, taps, levels, comparisons, cubes, mip chains and the texel cache. Decoding and blending
//! are computed here.
use softgraphics::soft3d::error::{Error, StateFault, TextureFault};
use softgraphics::soft3d::mips::{generate_mips, Generation};
use softgraphics::soft3d::pass::Colour;
use softgraphics::soft3d::state::CompareOp;
use softgraphics::soft3d::texture;
use softgraphics::soft3d::texture::{Border, Cache, CubeFace, Fetched, Filter, Kind, Level, LevelChoice, Sampler, Semantics, Texture, Transfer, Wrap};

type Rgba = [f32; 4];

fn near(left: f32, right: f32) -> bool {
    (left - right).abs() <= 1e-4
}

fn bits(texel: Rgba) -> [u32; 4] {
    texel.map(f32::to_bits)
}

fn floats(texel: [u32; 4]) -> Rgba {
    texel.map(f32::from_bits)
}

fn srgb(value: f32) -> f32 {
    if value <= 0.04045 {
        value / 12.92
    } else {
        ((value + 0.055) / 1.055).powf(2.4)
    }
}

/// A stored texel as linear premultiplied light, the way the texture says it is decoded.
fn decode(texture: &Texture, raw: [u32; 4]) -> Rgba {
    let how = texture.decoding();
    let mut texel = floats(raw);
    if how.transfer == Some(Transfer::Srgb) {
        for channel in 0..3 {
            texel[channel] = srgb(texel[channel]);
        }
    }
    if how.premultiply {
        for channel in 0..3 {
            texel[channel] *= texel[3];
        }
    }
    texel
}

fn fetch(texture: &Texture, level: u32, at: (i64, i64, i64), sampler: &Sampler) -> Rgba {
    match texture::fetch(texture, level, at, sampler) {
        Fetched::Ready(texel) => floats(texel),
        Fetched::Stored { raw, .. } => decode(texture, raw),
    }
}

fn mix(a: Rgba, b: Rgba, at: f32) -> Rgba {
    [0, 1, 2, 3].map(|i| a[i] * (1.0 - at) + b[i] * at)
}

/// Where a coordinate is in a level: rounded down, to the nearest, and the fraction past the first.
fn place(coordinate: f32, extent: u32) -> (i64, i64, f32) {
    let (place, floor) = texture::texel_space((coordinate * extent as f32 - 0.5).to_bits());
    let at = f32::from_bits(place);
    (floor, (at + 0.5).floor() as i64, at - at.floor())
}

type Reading<'a> = dyn FnMut(u32, (i64, i64, i64)) -> Rgba + 'a;

fn read_level(texture: &Texture, coordinate: [f32; 3], level: u32, filter: Filter, read: &mut Reading) -> Rgba {
    let found = texture.level(level).unwrap();
    let (x, nx, fx) = place(coordinate[0], found.width);
    let (y, ny, fy) = place(coordinate[1], found.height);
    let (z, nz, fz) = if found.depth > 1 { place(coordinate[2], found.depth) } else { (0, 0, 0.0) };
    let taps = texture::taps(found.depth, (x, y, z), (nx, ny, nz), filter);
    let values: Vec<Rgba> = taps.iter().map(|at| read(level, *at)).collect();
    match values.len() {
        1 => values[0],
        4 => mix(mix(values[0], values[1], fx), mix(values[2], values[3], fx), fy),
        _ => {
            let near = mix(mix(values[0], values[1], fx), mix(values[2], values[3], fx), fy);
            let far = mix(mix(values[4], values[5], fx), mix(values[6], values[7], fx), fy);
            mix(near, far, fz)
        }
    }
}

fn sample_through(texture: &Texture, sampler: &Sampler, coordinate: [f32; 3], lod: f32, magnified: bool, read: &mut Reading) -> Rgba {
    let filter = if magnified { sampler.magnify } else { sampler.minify };
    if magnified {
        return read_level(texture, coordinate, 0, filter, read);
    }
    let lod = f32::from_bits(texture::clamped_level(lod.to_bits(), ((texture.levels() - 1) as f32).to_bits()));
    match texture::choose_levels(sampler.mip, texture.levels(), lod.floor() as u32, (lod + 0.5).floor() as u32) {
        LevelChoice::One(level) => read_level(texture, coordinate, level, filter, read),
        LevelChoice::Two(first, second) => {
            let near = read_level(texture, coordinate, first, filter, read);
            let far = read_level(texture, coordinate, second, filter, read);
            mix(near, far, lod - lod.floor())
        }
    }
}

fn sample(texture: &Texture, sampler: &Sampler, coordinate: [f32; 3], lod: f32, magnified: bool) -> Rgba {
    sample_through(texture, sampler, coordinate, lod, magnified, &mut |level, at| fetch(texture, level, at, sampler))
}

fn sample_cached(texture: &Texture, sampler: &Sampler, coordinate: [f32; 3], lod: f32, magnified: bool, cache: &mut Cache) -> Rgba {
    sample_through(texture, sampler, coordinate, lod, magnified, &mut |level, at| match texture::fetch_cached(texture, level, at, sampler, cache) {
        Fetched::Ready(texel) => floats(texel),
        Fetched::Stored { key, raw } => {
            let value = decode(texture, raw);
            cache.store(key, bits(value));
            value
        }
    })
}

fn mips(texture: &mut Texture) {
    let decoded: Vec<[u32; 4]> = match texture.level(0) {
        Some(level) => level.texels.iter().map(|raw| bits(decode(texture, *raw))).collect(),
        None => vec![],
    };
    let mut averages: Vec<Vec<[u32; 4]>> = vec![];
    loop {
        match generate_mips(texture, &decoded, &averages) {
            Generation::Finished => return,
            Generation::Pending(groups) => averages.push(
                groups
                    .iter()
                    .map(|group| {
                        let mut sum = [0.0_f32; 4];
                        for texel in group {
                            let value = floats(*texel);
                            for channel in 0..4 {
                                sum[channel] += value[channel];
                            }
                        }
                        bits(sum.map(|total| total / group.len() as f32))
                    })
                    .collect(),
            ),
        }
        assert!(averages.len() < 40);
    }
}

fn filled(width: u32, height: u32, depth: u32, value: impl Fn(u32, u32, u32) -> Rgba) -> Level {
    let mut level = Level::new(width, height, depth);
    for z in 0..depth {
        for y in 0..height {
            for x in 0..width {
                level.set(x, y, z, bits(value(x, y, z)));
            }
        }
    }
    level
}

fn colour(id: u32, kind: Kind, levels: Vec<Level>) -> Texture {
    Texture { id, kind, levels, transfer: Transfer::Linear, semantics: Semantics::Color, premultiplied: true }
}

fn strip(values: &[Rgba]) -> Texture {
    colour(1, Kind::Dim2, vec![filled(values.len() as u32, 1, 1, |x, _, _| values[x as usize])])
}

fn red(value: f32) -> Rgba {
    [value, value, value, 1.0]
}

#[test]
fn a_nearest_sample_lands_on_the_texel_whose_centre_is_nearest() {
    let texture = strip(&[red(0.0), red(1.0)]);
    let sampler = Sampler { wrap_u: Wrap::ClampToEdge, ..Sampler::nearest() };
    assert!(near(sample(&texture, &sampler, [0.25, 0.5, 0.0], 0.0, true)[0], 0.0), "the centre of texel 0 is at 0.25");
    assert!(near(sample(&texture, &sampler, [0.75, 0.5, 0.0], 0.0, true)[0], 1.0), "and of texel 1 at 0.75");
    assert!(near(sample(&texture, &sampler, [0.5, 0.5, 0.0], 0.0, true)[0], 1.0), "u = 0.5 is texel-space 0.5, which rounds up to texel 1");
    assert!(near(sample(&texture, &sampler, [0.25, 0.5, 0.0], 0.0, true)[0], 0.0));
}

#[test]
fn every_wrap_mode_brings_a_coordinate_back_the_way_its_definition_says() {
    let texture = strip(&[red(0.0), red(0.25), red(0.5), red(0.75)]);
    let read = |wrap: Wrap, u: f32| sample(&texture, &Sampler { wrap_u: wrap, ..Sampler::nearest() }, [u, 0.5, 0.0], 0.0, true)[0];

    assert!(near(read(Wrap::Repeat, -0.125), read(Wrap::Repeat, 0.875)), "a negative coordinate lands where its positive twin does");
    assert!(near(read(Wrap::Repeat, 1.125), read(Wrap::Repeat, 0.125)));
    assert!(near(read(Wrap::ClampToEdge, 5.0), 0.75));
    assert!(near(read(Wrap::ClampToEdge, -5.0), 0.0));
    assert!(near(read(Wrap::MirroredRepeat, 1.125), read(Wrap::MirroredRepeat, 0.875)));
    let bordered = Sampler { wrap_u: Wrap::ClampToBorder, border: Border::OpaqueWhite, ..Sampler::nearest() };
    assert!(near(sample(&texture, &bordered, [-1.0, 0.5, 0.0], 0.0, true)[0], 1.0));
    let transparent = Sampler { border: Border::TransparentBlack, ..bordered };
    assert!(near(sample(&texture, &transparent, [-1.0, 0.5, 0.0], 0.0, true)[3], 0.0));
}

#[test]
fn a_filtered_srgb_sample_averages_in_linear_light_and_a_data_image_is_not_decoded() {
    let mut texture = strip(&[red(0.5), red(1.0)]);
    texture.transfer = Transfer::Srgb;
    let sampler = Sampler { wrap_u: Wrap::ClampToEdge, ..Sampler::linear() };
    let filtered = sample(&texture, &sampler, [0.5, 0.5, 0.0], 0.0, true)[0];
    assert!((filtered - 0.6070).abs() < 1e-3, "the linear average is 0.607, not the encoded one: {filtered}");
    assert!((filtered - 0.75).abs() > 0.1, "and it is certainly not the encoded average");

    let mut data = texture.clone();
    data.semantics = Semantics::Data;
    let plain = sample(&data, &sampler, [0.5, 0.5, 0.0], 0.0, true)[0];
    assert!(near(plain, 0.75), "the numbers are averaged as numbers: {plain}");
    let mut normal = texture.clone();
    normal.semantics = Semantics::Normal;
    assert!(near(sample(&normal, &sampler, [0.5, 0.5, 0.0], 0.0, true)[0], 0.75));
}

#[test]
fn a_filtered_sample_premultiplies_before_it_interpolates() {
    let mut texture = strip(&[[1.0, 0.0, 0.0, 1.0], [1.0, 1.0, 1.0, 0.0]]);
    texture.premultiplied = false;
    let sampler = Sampler { wrap_u: Wrap::ClampToEdge, ..Sampler::linear() };
    let filtered = sample(&texture, &sampler, [0.5, 0.5, 0.0], 0.0, true);
    assert!(near(filtered[0], 0.5) && near(filtered[1], 0.0) && near(filtered[2], 0.0) && near(filtered[3], 0.5), "{filtered:?}");
    assert!(filtered[1] < 0.01, "the transparent white did not bleed: {filtered:?}");
}

#[test]
fn a_trilinear_sample_blends_two_levels_and_stops_at_the_last_one() {
    let mut texture = strip(&[red(0.0), red(0.0), red(0.0), red(0.0)]);
    texture.levels.push(filled(2, 1, 1, |_, _, _| red(1.0)));
    texture.levels.push(filled(1, 1, 1, |_, _, _| red(0.5)));
    let sampler = Sampler { wrap_u: Wrap::ClampToEdge, ..Sampler::linear() };

    assert!(near(sample(&texture, &sampler, [0.5, 0.5, 0.0], 0.0, false)[0], 0.0));
    assert!(near(sample(&texture, &sampler, [0.5, 0.5, 0.0], 1.0, false)[0], 1.0));
    assert!(near(sample(&texture, &sampler, [0.5, 0.5, 0.0], 0.25, false)[0], 0.25), "a quarter of the way between levels");
    assert!(near(sample(&texture, &sampler, [0.5, 0.5, 0.0], 2.0, false)[0], 0.5), "the last level alone");
    assert!(near(sample(&texture, &sampler, [0.5, 0.5, 0.0], 9.0, false)[0], 0.5), "and past it, still the last level");

    let nearest_mip = Sampler { mip: Filter::Nearest, ..sampler };
    assert!(near(sample(&texture, &nearest_mip, [0.5, 0.5, 0.0], 0.4, false)[0], 0.0));
    assert!(near(sample(&texture, &nearest_mip, [0.5, 0.5, 0.0], 0.6, false)[0], 1.0));
}

fn sample_compare(texture: &Texture, sampler: &Sampler, coordinate: [f32; 2], level: u32, reference: f32) -> Result<f32, Error> {
    let compare = texture::compare_of(texture, sampler, level)?;
    let found = texture.level(level).unwrap();
    let (x, nx, fx) = place(coordinate[0], found.width);
    let (y, ny, fy) = place(coordinate[1], found.height);
    let stored: Vec<[u32; 4]> = texture::taps(1, (x, y, 0), (nx, ny, 0), sampler.minify).iter().map(|at| bits(fetch(texture, level, *at, sampler))).collect();
    let passed: Vec<f32> = texture::compared_taps(compare, reference.to_bits(), &stored).iter().map(|answer| f32::from_bits(*answer)).collect();
    Ok(match passed.len() {
        1 => passed[0],
        _ => {
            let top = passed[0] * (1.0 - fx) + passed[1] * fx;
            let low = passed[2] * (1.0 - fx) + passed[3] * fx;
            top * (1.0 - fy) + low * fy
        }
    })
}

#[test]
fn a_depth_compare_sample_is_the_fraction_of_taps_that_passed() {
    let mut texture = strip(&[[0.2, 0.0, 0.0, 1.0], [0.8, 0.0, 0.0, 1.0]]);
    texture.semantics = Semantics::Depth;
    let sampler = Sampler { wrap_u: Wrap::ClampToEdge, compare: Some(CompareOp::LessOrEqual), ..Sampler::linear() };
    let fraction = sample_compare(&texture, &sampler, [0.5, 0.5], 0, 0.5).unwrap();
    assert!(near(fraction, 0.5), "{fraction}");
    assert!(!near(fraction, 1.0) && !near(fraction, 0.0));
    assert!(near(sample_compare(&texture, &sampler, [0.25, 0.5], 0, 0.5).unwrap(), 0.0));
    assert!(near(sample_compare(&texture, &sampler, [0.75, 0.5], 0, 0.5).unwrap(), 1.0));
    let none = Sampler { compare: None, ..sampler };
    assert_eq!(sample_compare(&texture, &none, [0.5, 0.5], 0, 0.5), Err(Error::InvalidRenderState { reason: StateFault::NoComparison }));
    assert_eq!(sample_compare(&texture, &sampler, [0.5, 0.5], 4, 0.5), Err(Error::InvalidTexture { reason: TextureFault::NoSuchLevel }));
}

fn face_of(direction: [f32; 3]) -> (u32, [f32; 2]) {
    let seen = texture::cube_face(direction.map(f32::to_bits));
    (seen.face, centre_of(&seen))
}

fn centre_of(seen: &CubeFace) -> [f32; 2] {
    let major = f32::from_bits(seen.major);
    if major == 0.0 {
        return [0.5, 0.5];
    }
    [seen.s, seen.t].map(|along| (f32::from_bits(along) / major + 1.0) * 0.5)
}

#[test]
fn a_direction_selects_the_face_the_standard_table_gives() {
    assert_eq!(face_of([1.0, 0.0, 0.0]).0, 0);
    assert_eq!(face_of([-1.0, 0.0, 0.0]).0, 1);
    assert_eq!(face_of([0.0, 1.0, 0.0]).0, 2);
    assert_eq!(face_of([0.0, -1.0, 0.0]).0, 3);
    assert_eq!(face_of([0.0, 0.0, 1.0]).0, 4);
    assert_eq!(face_of([0.0, 0.0, -1.0]).0, 5);
    assert_eq!(face_of([0.9, 0.3, -0.2]).0, 0);
    let (_, centre) = face_of([1.0, 0.0, 0.0]);
    assert!(near(centre[0], 0.5) && near(centre[1], 0.5), "{centre:?}");
    let (_, degenerate) = face_of([0.0, 0.0, 0.0]);
    assert!(near(degenerate[0], 0.5) && near(degenerate[1], 0.5));
}

fn sample_cube(texture: &Texture, sampler: &Sampler, direction: [f32; 3]) -> Rgba {
    let level = texture.level(0).unwrap();
    let (face, at) = face_of(direction);
    let (x, _, fx) = place(at[0], level.width);
    let (y, _, fy) = place(at[1], level.height);
    let tap = |dx: i64, dy: i64| -> Rgba {
        let (cx, cy) = (x + dx, y + dy);
        let u = (cx as f32 + 0.5) / level.width as f32;
        let v = (cy as f32 + 0.5) / level.height as f32;
        let (s, t) = (u * 2.0 - 1.0, v * 2.0 - 1.0);
        match texture::neighbour_of(face, u.to_bits(), v.to_bits(), s.to_bits(), t.to_bits()) {
            None => fetch(texture, 0, (cx, cy, face as i64), sampler),
            Some(landed) => {
                let over = centre_of(&landed);
                let nx = ((over[0] * level.width as f32).floor() as i64).clamp(0, level.width as i64 - 1);
                let ny = ((over[1] * level.height as f32).floor() as i64).clamp(0, level.height as i64 - 1);
                fetch(texture, 0, (nx, ny, landed.face as i64), sampler)
            }
        }
    };
    mix(mix(tap(0, 0), tap(1, 0), fx), mix(tap(0, 1), tap(1, 1), fx), fy)
}

#[test]
fn a_cube_sample_at_a_face_edge_takes_taps_from_the_neighbour() {
    let texture = colour(2, Kind::Cube, vec![filled(2, 2, 6, |_, _, face| [face as f32, 0.0, 0.0, 1.0])]);
    let sampler = Sampler { wrap_u: Wrap::ClampToEdge, wrap_v: Wrap::ClampToEdge, ..Sampler::linear() };
    let inside = sample_cube(&texture, &sampler, [0.0, 0.0, 1.0]);
    assert!(near(inside[0], 4.0), "the +Z face is index 4: {inside:?}");
    let seam = sample_cube(&texture, &sampler, [0.999, 0.0, 1.0]);
    assert!(seam[0] > 0.0 && seam[0] < 4.0, "a clamped seam would answer exactly 4: {seam:?}");
}

#[test]
fn mip_generation_is_a_box_filter_in_linear_light_and_odd_sizes_halve_by_flooring() {
    let checker = |x: u32, y: u32, _: u32| red(if (x + y) % 2 == 0 { 0.0 } else { 1.0 });
    let mut texture = colour(1, Kind::Dim2, vec![filled(4, 4, 1, checker)]);
    mips(&mut texture);
    assert_eq!(texture.levels(), 3, "4 -> 2 -> 1");
    assert_eq!((texture.levels[1].width, texture.levels[1].height), (2, 2));
    assert!(near(floats(texture.levels[1].at(0, 0, 0))[0], 0.5));
    assert!(near(floats(texture.levels[2].at(0, 0, 0))[0], 0.5));

    let mut odd = colour(3, Kind::Dim2, vec![filled(5, 3, 1, |_, _, _| red(1.0))]);
    mips(&mut odd);
    assert_eq!((odd.levels[1].width, odd.levels[1].height), (2, 1));
    assert!(near(floats(odd.levels[1].at(0, 0, 0))[0], 1.0), "a partial box averages what exists, not what does not");

    let mut encoded = colour(4, Kind::Dim2, vec![filled(2, 2, 1, |_, _, _| red(0.5))]);
    encoded.transfer = Transfer::Srgb;
    mips(&mut encoded);
    assert_eq!(encoded.transfer, Transfer::Linear);
    assert!((floats(encoded.levels[1].at(0, 0, 0))[0] - 0.2140).abs() < 1e-3, "the box averaged decoded values");
    assert!((floats(encoded.levels[0].at(0, 0, 0))[0] - 0.2140).abs() < 1e-3, "the top level is the decoded one");
    assert!(encoded.premultiplied, "and it says so, or the next fetch decodes it again");

    let mut straight = colour(5, Kind::Dim2, vec![filled(2, 2, 1, |_, _, _| [0.8, 0.8, 0.8, 0.5])]);
    straight.premultiplied = false;
    mips(&mut straight);
    assert!(straight.premultiplied);
    assert!(near(floats(straight.levels[0].at(0, 0, 0))[0], 0.4), "the top level is premultiplied");
    assert!(near(floats(straight.levels[1].at(0, 0, 0))[0], 0.4), "and so is the level under it");
}

/// The level of detail of a footprint.
fn lambda(ddx: [f32; 2], ddy: [f32; 2], width: u32, height: u32, sampler: &Sampler, levels: u32) -> f32 {
    let length = |d: [f32; 2]| ((d[0] * width as f32).powi(2) + (d[1] * height as f32).powi(2)).sqrt();
    let rho = length(ddx).max(length(ddy));
    let asked = rho.log2() + f32::from_bits(sampler.lod_bias);
    let last = (levels.max(1) - 1) as f32;
    f32::from_bits(texture::level_of_detail(rho.to_bits(), asked.to_bits(), (sampler.min_lod, sampler.max_lod), last.to_bits()))
}

fn sample_anisotropic(texture: &Texture, sampler: &Sampler, at: [f32; 3], ddx: [f32; 2], ddy: [f32; 2], width: u32, height: u32) -> Rgba {
    let length = |d: [f32; 2]| ((d[0] * width as f32).powi(2) + (d[1] * height as f32).powi(2)).sqrt();
    let (along, long, short) = if length(ddx) >= length(ddy) { (ddx, length(ddx), length(ddy)) } else { (ddy, length(ddy), length(ddx)) };
    let ratio = if short > 0.0 { (long / short).ceil() as u32 } else { 0 };
    match texture::anisotropic_taps(sampler.anisotropy, long.to_bits(), short.to_bits(), ratio) {
        None => sample(texture, sampler, at, lambda(ddx, ddy, width, height, sampler, texture.levels()), false),
        Some(count) => {
            let level = (long / count as f32).log2().clamp(0.0, (texture.levels() - 1) as f32);
            let mut sum = [0.0_f32; 4];
            for tap in 0..count {
                let offset = (tap as f32 + 0.5) / count as f32 - 0.5;
                let moved = [at[0] + along[0] * offset, at[1] + along[1] * offset, at[2]];
                let value = sample(texture, sampler, moved, level, false);
                for channel in 0..4 {
                    sum[channel] += value[channel] / count as f32;
                }
            }
            sum
        }
    }
}

#[test]
fn an_anisotropic_sample_is_sharper_than_the_isotropic_one_it_replaces() {
    let stripes = |x: u32, _: u32, _: u32| red(if x % 2 == 0 { 0.0 } else { 1.0 });
    let mut texture = colour(1, Kind::Dim2, vec![filled(16, 16, 1, stripes)]);
    mips(&mut texture);
    let ddx = [1.0 / 16.0, 0.0];
    let ddy = [0.0, 8.0 / 16.0];
    let isotropic = Sampler { wrap_u: Wrap::Repeat, wrap_v: Wrap::Repeat, anisotropy: 1, ..Sampler::linear() };
    let anisotropic = Sampler { anisotropy: 8, ..isotropic };
    let coarse = lambda(ddx, ddy, 16, 16, &isotropic, texture.levels());
    assert!(near(coarse, 3.0), "the isotropic rule picks level three, where the stripes are gone: {coarse}");

    let point = [0.5 / 16.0, 0.5, 0.0];
    let sharp = sample_anisotropic(&texture, &anisotropic, point, ddx, ddy, 16, 16);
    let blurred = sample_anisotropic(&texture, &isotropic, point, ddx, ddy, 16, 16);
    assert!(sharp[0] < blurred[0] - 0.1, "the anisotropic sample kept the stripe: {} against {}", sharp[0], blurred[0]);
    assert!(blurred[0] > 0.4, "and the isotropic one averaged it away: {}", blurred[0]);
    let plain = sample(&texture, &isotropic, point, coarse, false);
    assert!(near(plain[0], blurred[0]), "{} against {}", plain[0], blurred[0]);
}

#[test]
fn an_array_layer_is_selected_and_never_blended_with_its_neighbour() {
    let level = filled(2, 2, 3, |_, _, layer| red(layer as f32));
    let array = colour(5, Kind::Array, vec![level.clone()]);
    let sampler = Sampler { wrap_u: Wrap::ClampToEdge, wrap_v: Wrap::ClampToEdge, ..Sampler::linear() };
    let read = |layer: u32| -> Result<Rgba, Error> {
        let found = texture::sample_array(&array, layer, 0)?;
        let held = array.level(found).unwrap();
        let (x, nx, _) = place(0.5, held.width);
        let (y, ny, _) = place(0.5, held.height);
        let values: Vec<Rgba> = texture::taps(1, (x, y, 0), (nx, ny, 0), sampler.minify).iter().map(|at| fetch(&array, found, (at.0, at.1, layer as i64), &sampler)).collect();
        Ok(mix(mix(values[0], values[1], 0.5), mix(values[2], values[3], 0.5), 0.5))
    };
    for layer in 0..3_u32 {
        let texel = read(layer).unwrap();
        assert!(near(texel[0], layer as f32), "layer {layer} answered {}", texel[0]);
    }
    assert!(read(3).is_err());
    assert_eq!(texture::sample_array(&array, 3, 0), Err(Error::InvalidTexture { reason: TextureFault::NoSuchLayer }));
    assert_eq!(texture::sample_array(&colour(9, Kind::Array, vec![]), 0, 0), Err(Error::InvalidTexture { reason: TextureFault::NoSuchLevel }));

    let volume = colour(6, Kind::Dim3, vec![level]);
    let between = sample(&volume, &sampler, [0.5, 0.5, 0.5], 0.0, true)[0];
    assert!(near(between, 1.0), "halfway through three slices is the middle one: {between}");
    let quarter = sample(&volume, &sampler, [0.5, 0.5, 1.0 / 3.0], 0.0, true)[0];
    assert!(quarter > 0.0 && quarter < 1.0, "and a point between two slices blends them: {quarter}");
}

#[test]
fn a_texel_cache_serves_the_same_values_and_is_hit_by_neighbouring_taps() {
    let level = filled(8, 8, 1, |x, y, _| red((x + y) as f32 / 14.0));
    let texture = Texture { transfer: Transfer::Srgb, ..colour(42, Kind::Dim2, vec![level]) };
    let sampler = Sampler { wrap_u: Wrap::ClampToEdge, wrap_v: Wrap::ClampToEdge, ..Sampler::linear() };
    let mut cache = Cache::new();
    for step in 0..64 {
        let u = (step as f32 + 0.5) / 64.0;
        let plain = sample(&texture, &sampler, [u, 0.5, 0.0], 0.0, true);
        let cached = sample_cached(&texture, &sampler, [u, 0.5, 0.0], 0.0, true, &mut cache);
        assert_eq!(plain, cached, "the cache changed an answer at step {step}");
    }
    assert!(cache.hits() > cache.misses(), "a magnified walk mostly hits: {} hits against {} misses", cache.hits(), cache.misses());
    assert!(cache.misses() <= 32, "more misses than there are texels to miss: {}", cache.misses());

    let before = cache.hits();
    cache.clear();
    sample_cached(&texture, &sampler, [0.5, 0.5, 0.0], 0.0, true, &mut cache);
    assert_eq!(cache.hits(), before, "every tap after a clear is a miss");
}

/// A texture made of an attachment, its samples averaged here.
fn from_attachment(attachment: &Colour, id: u32) -> Texture {
    let mut averages = Vec::new();
    for y in 0..attachment.height {
        for x in 0..attachment.width {
            let samples = attachment.samples_at(x, y);
            let mut sum = [0.0_f32; 4];
            for sample in &samples {
                for channel in 0..4 {
                    sum[channel] += f32::from_bits(sample[channel]) / samples.len() as f32;
                }
            }
            averages.push(bits(sum));
        }
    }
    let resolved = attachment.resolve(&averages);
    texture::from_attachment(attachment, resolved, id)
}

#[test]
fn a_rendered_attachment_becomes_a_texture_that_is_already_linear() {
    let mut attachment = Colour::new(2, 2, 4, false);
    for sample in 0..4 {
        attachment.set(0, 0, sample, bits([sample as f32 * 0.25, 0.0, 0.0, 1.0]));
    }
    let rendered = from_attachment(&attachment, 9);
    assert_eq!(rendered.transfer, Transfer::Linear, "a second decode would darken every step of a chain");
    assert!(rendered.premultiplied);
    let average = floats(rendered.levels[0].at(0, 0, 0))[0];
    assert!(near(average, 0.375), "the resolved average: {average}");

    let mut identity = Colour::new(1, 1, 4, true);
    for sample in 0..4 {
        identity.set(0, 0, sample, bits([40.0 + sample as f32, 0.0, 0.0, 1.0]));
    }
    let read_back = from_attachment(&identity, 10);
    assert_eq!(read_back.semantics, Semantics::Identity);
    assert!(near(floats(read_back.levels[0].at(0, 0, 0))[0], 40.0), "sample zero, not the average");
}

/// A generator with a fixed sequence, so that a failing case is found again.
struct Noise(u64);

impl Noise {
    fn next(&mut self) -> u64 {
        let mut state = self.0;
        state ^= state >> 12;
        state ^= state << 25;
        state ^= state >> 27;
        self.0 = state;
        state.wrapping_mul(0x2545_F491_4F6C_DD1D)
    }

    fn below(&mut self, ceiling: u32) -> u32 {
        if ceiling == 0 {
            0
        } else {
            (self.next() % ceiling as u64) as u32
        }
    }

    fn coordinate(&mut self) -> f32 {
        match self.below(10) {
            0 => f32::NAN,
            1 => f32::INFINITY,
            2 => f32::NEG_INFINITY,
            3 => 0.0,
            4 => 1.0,
            5 => -1.0,
            6 => 1.0e30,
            7 => -1.0e30,
            8 => (self.next() % 2000) as f32 / 1000.0 - 1.0,
            _ => (self.next() % 200_000) as f32 / 1000.0 - 100.0,
        }
    }
}

#[test]
fn every_wrap_and_filter_answers_a_hostile_texture_coordinate() {
    let texture = strip(&[red(0.0), red(0.25), red(0.5), red(0.75)]);
    let mut noise = Noise(0xA11C_0DE0_8765_4321);
    let wraps = [Wrap::ClampToEdge, Wrap::Repeat, Wrap::MirroredRepeat, Wrap::ClampToBorder];
    let filters = [Filter::Nearest, Filter::Linear];
    for iteration in 0..2000 {
        let sampler = Sampler {
            wrap_u: wraps[noise.below(4) as usize],
            wrap_v: wraps[noise.below(4) as usize],
            wrap_w: wraps[noise.below(4) as usize],
            minify: filters[noise.below(2) as usize],
            magnify: filters[noise.below(2) as usize],
            mip: filters[noise.below(2) as usize],
            anisotropy: noise.below(8) + 1,
            ..Sampler::nearest()
        };
        let coordinate = [noise.coordinate(), noise.coordinate(), noise.coordinate()];
        let level = noise.coordinate();
        let texel = sample(&texture, &sampler, coordinate, level, noise.next() & 1 == 0);
        for channel in texel {
            assert!(channel.is_finite(), "iteration {iteration}: {sampler:?} at {coordinate:?} level {level} gave {texel:?}");
            assert!((-0.01..=1.01).contains(&channel), "iteration {iteration}: {texel:?} is outside what the texture holds");
        }
        let ddx = [noise.coordinate(), noise.coordinate()];
        let ddy = [noise.coordinate(), noise.coordinate()];
        let stretched = sample_anisotropic(&texture, &sampler, coordinate, ddx, ddy, 4, 1);
        for channel in stretched {
            assert!(channel.is_finite(), "iteration {iteration}: anisotropic gave {stretched:?}");
        }
    }
}

#[test]
fn an_address_is_in_its_extent_or_on_the_border() {
    assert_eq!(texture::address(None, 4, Wrap::Repeat), None);
    assert_eq!(texture::address(Some(-1), 4, Wrap::Repeat), Some(3));
    assert_eq!(texture::address(Some(7), 4, Wrap::Repeat), Some(3));
    assert_eq!(texture::address(Some(4), 4, Wrap::MirroredRepeat), Some(3));
    assert_eq!(texture::address(Some(-1), 4, Wrap::MirroredRepeat), Some(0));
    assert_eq!(texture::address(Some(-1), 4, Wrap::ClampToBorder), None);
    assert_eq!(texture::address(Some(i64::MAX), 4, Wrap::ClampToEdge), Some(3));
    assert_eq!(texture::address(Some(0), 0, Wrap::Repeat), None);
    assert_ne!(texture::texel_key(1, 2, 3, 4, 5), texture::texel_key(1, 2, 4, 3, 5));
    assert_eq!(floats(Border::OpaqueBlack.texel()), [0.0, 0.0, 0.0, 1.0]);
    assert_eq!(texture::direction_of(4, 0, 0).map(f32::from_bits), [0.0, -0.0, 1.0]);
}

#[test]
fn the_level_is_log2_of_the_larger_derivative_and_is_clamped_to_the_chain() {
    let sampler = Sampler { max_lod: 1000.0_f32.to_bits(), ..Sampler::linear() };
    // One texel per pixel across, four down, over sixty-four texels: the footprint is four, so the level is two.
    let level = lambda([1.0 / 64.0, 0.0], [0.0, 4.0 / 64.0], 64, 64, &sampler, 7);
    assert!(near(level, 2.0), "{level}");
    assert!(!near(level, 1.0));
    let biased = lambda([1.0 / 64.0, 0.0], [0.0, 4.0 / 64.0], 64, 64, &Sampler { lod_bias: 1.5_f32.to_bits(), ..sampler }, 7);
    assert!(near(biased, 3.5));
    let clamped = lambda([1.0, 0.0], [0.0, 1.0], 64, 64, &sampler, 3);
    assert!(near(clamped, 2.0), "never past the last level that exists: {clamped}");
    assert!(near(lambda([0.0, 0.0], [0.0, 0.0], 64, 64, &sampler, 7), 0.0));
}

#[test]
fn a_wild_coordinate_is_held_where_texels_are_apart() {
    let at = |value: f32| texture::texel_space(value.to_bits());
    assert_eq!(at(f32::NAN), (0, 0));
    assert_eq!(at(1.0e30), (16_777_216.0_f32.to_bits(), 16_777_216));
    assert_eq!(at(f32::NEG_INFINITY), ((-16_777_216.0_f32).to_bits(), -16_777_216));
    assert_eq!(at(-0.25), ((-0.25_f32).to_bits(), -1));
    assert_eq!(at(7.75), (7.75_f32.to_bits(), 7));
    assert_eq!(texture::clamped_level(f32::INFINITY.to_bits(), 3.0_f32.to_bits()), 0);
    assert_eq!(texture::clamped_level(9.0_f32.to_bits(), 3.0_f32.to_bits()), 3.0_f32.to_bits());
}
