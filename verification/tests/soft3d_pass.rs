//! Render passes: load, store, the fragment path and the resolve. Blending is computed here.
use softgraphics::soft3d::error::{Error, FormatFault};
use softgraphics::soft3d::pass;
use softgraphics::soft3d::pass::{AttachmentBlend, Colour, DepthFormat, DepthStencil, Fragment, Operations, POISON, ZERO};
use softgraphics::soft3d::state::{depth_stencil_test, CompareOp, LoadOp, StencilFace, StencilOp, StoreOp, Stored, WriteMask};

type Rgba = [f32; 4];

fn near(left: f32, right: f32) -> bool {
    (left - right).abs() <= 1e-4
}

fn bits(value: Rgba) -> [u32; 4] {
    value.map(f32::to_bits)
}

fn at(colour: &Colour, x: u32, y: u32, sample: u32) -> Rgba {
    colour.at(x, y, sample).map(f32::from_bits)
}

const ALL: WriteMask = WriteMask { red: true, green: true, blue: true, alpha: true };

fn opaque_blend() -> AttachmentBlend {
    AttachmentBlend { enabled: false, write_mask: ALL }
}

fn float(value: f32) -> Stored {
    Stored::Float(value.to_bits())
}

fn fragment(colour: Rgba, depth: f32, blend: AttachmentBlend) -> Fragment {
    Fragment {
        x: 0,
        y: 0,
        coverage: 0b1111,
        depth: float(depth),
        colour: bits(colour),
        blend,
        depth_compare: CompareOp::Less,
        depth_write: true,
        stencil: None,
        sample_mask: u32::MAX,
        alpha_mask: None,
    }
}

/// What each sample becomes: the source, or premultiplied source-over where blending is on.
fn blended(colour: &Colour, fragment: &Fragment) -> Vec<[u32; 4]> {
    let source = fragment.colour.map(f32::from_bits);
    (0..colour.samples)
        .map(|sample| {
            let destination = at(colour, fragment.x, fragment.y, sample);
            if fragment.blend.enabled {
                bits([0, 1, 2, 3].map(|i| source[i] + destination[i] * (1.0 - source[3])))
            } else {
                fragment.colour
            }
        })
        .collect()
}

fn write(colour: &mut Colour, depth: &mut Option<DepthStencil>, fragment: &Fragment) -> Result<u32, Error> {
    let values = blended(colour, fragment);
    pass::write_fragment(colour, depth, fragment, &values)
}

fn depth_buffer(samples: u32, format: DepthFormat) -> DepthStencil {
    DepthStencil::new(1, 1, samples, format, float(1.0))
}

#[test]
fn a_discarded_attachment_is_poisoned_at_both_ends_and_a_clear_has_a_value() {
    let mut attachment = Colour::new(2, 2, 1, false);
    attachment.fill(bits([0.25, 0.25, 0.25, 1.0]));

    pass::load_colour(&mut attachment, &Operations { load: LoadOp::Load, store: StoreOp::Store, clear: ZERO });
    assert!(near(at(&attachment, 0, 0, 0)[0], 0.25), "a load keeps what is there");

    pass::load_colour(&mut attachment, &Operations { load: LoadOp::Clear, store: StoreOp::Store, clear: bits([0.5, 0.0, 0.0, 1.0]) });
    assert!(near(at(&attachment, 1, 1, 0)[0], 0.5), "a clear has a value");

    pass::load_colour(&mut attachment, &Operations { load: LoadOp::Discard, store: StoreOp::Store, clear: ZERO });
    assert_eq!(attachment.at(0, 0, 0), POISON, "a discard has none, and says so loudly");

    let readable = pass::store_colour(&mut attachment, &Operations { load: LoadOp::Load, store: StoreOp::Store, clear: ZERO });
    assert!(readable);
    let readable = pass::store_colour(&mut attachment, &Operations { load: LoadOp::Load, store: StoreOp::Discard, clear: ZERO });
    assert!(!readable, "a discarded store says its contents may not be read");
    assert_eq!(attachment.at(0, 0, 0), POISON);
}

#[test]
fn a_depth_test_keeps_the_nearer_fragment_and_writes_its_depth() {
    let mut colour = Colour::new(1, 1, 1, false);
    let mut depth = Some(depth_buffer(1, DepthFormat::Depth32F));
    let state = opaque_blend();

    let written = write(&mut colour, &mut depth, &Fragment { coverage: 0b1, ..fragment([1.0, 0.0, 0.0, 1.0], 0.5, state) }).unwrap();
    assert_eq!(written, 1);
    assert!(near(at(&colour, 0, 0, 0)[0], 1.0));

    let written = write(&mut colour, &mut depth, &Fragment { coverage: 0b1, ..fragment([0.0, 1.0, 0.0, 1.0], 0.9, state) }).unwrap();
    assert_eq!(written, 0);
    assert!(near(at(&colour, 0, 0, 0)[0], 1.0) && near(at(&colour, 0, 0, 0)[1], 0.0));

    let written = write(&mut colour, &mut depth, &Fragment { coverage: 0b1, ..fragment([0.0, 0.0, 1.0, 1.0], 0.1, state) }).unwrap();
    assert_eq!(written, 1);
    assert!(near(at(&colour, 0, 0, 0)[2], 1.0));
    assert_eq!(depth.as_ref().unwrap().depth_at(0, 0, 0), float(0.1));
    let mut plain = Colour::new(1, 1, 1, false);
    assert_eq!(write(&mut plain, &mut None, &Fragment { coverage: 0b1, ..fragment([1.0, 1.0, 1.0, 1.0], 0.9, state) }).unwrap(), 1);
}

#[test]
fn the_stencil_test_runs_before_the_depth_test_and_selects_its_own_operation() {
    let mut colour = Colour::new(1, 1, 1, false);
    let mut depth = Some(DepthStencil::new(1, 1, 1, DepthFormat::Depth24Stencil8, Stored::Steps(0xFF_FFFF)));
    let state = opaque_blend();
    let face = StencilFace {
        compare: CompareOp::Never,
        read_mask: 0xFF,
        write_mask: 0xFF,
        reference: 1,
        on_fail: StencilOp::Replace,
        on_depth_fail: StencilOp::IncrementClamp,
        on_pass: StencilOp::DecrementClamp,
    };
    let near_one = Fragment { coverage: 0b1, depth: Stored::Steps(100), stencil: Some(face), ..fragment([1.0, 0.0, 0.0, 1.0], 0.1, state) };
    let written = write(&mut colour, &mut depth, &near_one).unwrap();
    assert_eq!(written, 0, "the stencil rejected it");
    assert_eq!(depth.as_ref().unwrap().stencil_at(0, 0, 0), 1, "and `on_fail` replaced the stencil with the reference");
    assert!(near(at(&colour, 0, 0, 0)[0], 0.0), "nothing reached the colour attachment");

    let face = StencilFace { compare: CompareOp::Always, reference: 0, on_depth_fail: StencilOp::IncrementClamp, ..face };
    depth.as_mut().unwrap().clear(Stored::Steps(0), 5);
    let far_one = Fragment { depth: Stored::Steps(0xF0_0000), stencil: Some(face), ..near_one };
    let written = write(&mut colour, &mut depth, &far_one).unwrap();
    assert_eq!(written, 0);
    assert_eq!(depth.as_ref().unwrap().stencil_at(0, 0, 0), 6, "the depth-fail operation ran, not the stencil-fail one");
}

#[test]
fn blending_runs_before_the_write_mask_and_a_masked_channel_keeps_the_destination() {
    let mut colour = Colour::new(1, 1, 1, false);
    colour.set(0, 0, 0, bits([0.0, 0.0, 1.0, 1.0]));
    let state = AttachmentBlend { enabled: true, write_mask: WriteMask { red: true, green: true, blue: false, alpha: true } };
    write(&mut colour, &mut None, &Fragment { coverage: 0b1, ..fragment([0.5, 0.0, 0.0, 0.5], 0.5, state) }).unwrap();
    let result = at(&colour, 0, 0, 0);
    assert!(near(result[0], 0.5), "the red channel blended: {result:?}");
    assert!(near(result[2], 1.0), "and the blue one kept the destination whole rather than half of it");
}

#[test]
fn blending_an_integer_attachment_is_refused_rather_than_ignored() {
    let mut identity = Colour::new(1, 1, 1, true);
    let blending = AttachmentBlend { enabled: true, ..opaque_blend() };
    let refused = write(&mut identity, &mut None, &Fragment { coverage: 0b1, ..fragment([7.0, 0.0, 0.0, 1.0], 0.5, blending) });
    assert_eq!(refused, Err(Error::UnsupportedFormat { reason: FormatFault::IntegerBlend }));
    write(&mut identity, &mut None, &Fragment { coverage: 0b1, ..fragment([7.0, 0.0, 0.0, 1.0], 0.5, opaque_blend()) }).unwrap();
    assert!(near(at(&identity, 0, 0, 0)[0], 7.0));
}

fn average(colour: &Colour) -> Vec<[u32; 4]> {
    let mut averages = vec![];
    for y in 0..colour.height {
        for x in 0..colour.width {
            let samples = colour.samples_at(x, y);
            let mut sum = [0.0_f32; 4];
            for sample in &samples {
                for channel in 0..4 {
                    sum[channel] += f32::from_bits(sample[channel]);
                }
            }
            averages.push(bits(sum.map(|total| total / samples.len() as f32)));
        }
    }
    averages
}

#[test]
fn a_resolve_averages_colour_and_takes_the_first_sample_of_an_identity() {
    let mut colour = Colour::new(1, 1, 4, false);
    for sample in 0..4 {
        colour.set(0, 0, sample, bits([sample as f32, 0.0, 0.0, 1.0]));
    }
    let resolved = colour.resolve(&average(&colour));
    assert!(near(f32::from_bits(resolved[0][0]), 1.5), "the average of 0, 1, 2 and 3");

    let mut identity = Colour::new(1, 1, 4, true);
    for sample in 0..4 {
        identity.set(0, 0, sample, bits([10.0 + sample as f32, 0.0, 0.0, 1.0]));
    }
    let resolved = identity.resolve(&average(&identity));
    assert!(near(f32::from_bits(resolved[0][0]), 10.0), "sample zero, not the average");
}

#[test]
fn coverage_is_narrowed_before_anything_is_written() {
    let state = opaque_blend();
    let mut colour = Colour::new(1, 1, 4, false);
    let mut depth = Some(depth_buffer(4, DepthFormat::Depth32F));
    let written = write(&mut colour, &mut depth, &Fragment { sample_mask: 0b0011, ..fragment([1.0, 0.0, 0.0, 1.0], 0.5, state) }).unwrap();
    assert_eq!(written, 2);
    assert_eq!(depth.as_ref().unwrap().depth_at(0, 0, 3), float(1.0), "the masked samples kept their cleared depth");

    // Half an alpha narrows four samples to two.
    let mut colour = Colour::new(1, 1, 4, false);
    let written = write(&mut colour, &mut None, &Fragment { alpha_mask: Some(Ok(0b0011)), ..fragment([1.0, 0.0, 0.0, 0.5], 0.5, state) }).unwrap();
    assert_eq!(written, 2, "half an alpha covers half the samples");
    let written = write(&mut colour, &mut None, &Fragment { alpha_mask: Some(Ok(0)), ..fragment([1.0, 0.0, 0.0, 0.0], 0.5, state) }).unwrap();
    assert_eq!(written, 0, "and a zero alpha covers none");
    let refused = Error::UnsupportedSampleCount { samples: 3 };
    assert_eq!(write(&mut colour, &mut None, &Fragment { alpha_mask: Some(Err(refused)), ..fragment([1.0; 4], 0.5, state) }), Err(refused));
}

const ALL_COMPARE_OPS: [CompareOp; 8] = [
    CompareOp::Never,
    CompareOp::Less,
    CompareOp::Equal,
    CompareOp::LessOrEqual,
    CompareOp::Greater,
    CompareOp::NotEqual,
    CompareOp::GreaterOrEqual,
    CompareOp::Always,
];

#[test]
fn every_depth_comparison_decides_the_way_its_name_says() {
    let state = opaque_blend();
    for operation in ALL_COMPARE_OPS {
        for (incoming, stored) in [(0.25_f32, 0.5_f32), (0.75, 0.5), (0.5, 0.5)] {
            let mut colour = Colour::new(1, 1, 1, false);
            let mut depth = Some(depth_buffer(1, DepthFormat::Depth32F));
            depth.as_mut().unwrap().clear(float(stored), 0);
            let tried = Fragment { coverage: 0b1, depth_compare: operation, ..fragment([1.0, 0.0, 0.0, 1.0], incoming, state) };
            let written = write(&mut colour, &mut depth, &tried).unwrap();
            let ought = match operation {
                CompareOp::Never => false,
                CompareOp::Less => incoming < stored,
                CompareOp::Equal => incoming == stored,
                CompareOp::LessOrEqual => incoming <= stored,
                CompareOp::Greater => incoming > stored,
                CompareOp::NotEqual => incoming != stored,
                CompareOp::GreaterOrEqual => incoming >= stored,
                CompareOp::Always => true,
            };
            assert_eq!(written == 1, ought, "{operation:?} with incoming {incoming} against stored {stored}");
            let left = depth.as_ref().unwrap().depth_at(0, 0, 0);
            assert_eq!(left, if ought { float(incoming) } else { float(stored) }, "{operation:?}: the depth that is left");
        }
    }
    assert!(CompareOp::Less.test_integer(1, 2));
    assert!(!CompareOp::Less.test(f32::NAN.to_bits(), 0.5_f32.to_bits()));
    assert!(CompareOp::NotEqual.test(f32::NAN.to_bits(), f32::NAN.to_bits()));
}

/// The stencil value a passing fragment leaves.
fn stencilled(operation: StencilOp, stored: u8, reference: u8, otherwise: StencilOp) -> u8 {
    let mut colour = Colour::new(1, 1, 1, false);
    let mut depth = Some(depth_buffer(1, DepthFormat::Depth24Stencil8));
    depth.as_mut().unwrap().clear(float(1.0), stored);
    let face = StencilFace { compare: CompareOp::Always, read_mask: 0xFF, write_mask: 0xFF, reference, on_fail: otherwise, on_depth_fail: otherwise, on_pass: operation };
    let tried = Fragment { coverage: 0b1, stencil: Some(face), depth_compare: CompareOp::Always, ..fragment([1.0, 0.0, 0.0, 1.0], 0.5, opaque_blend()) };
    write(&mut colour, &mut depth, &tried).unwrap();
    depth.as_ref().unwrap().stencil_at(0, 0, 0)
}

#[test]
fn every_stencil_operation_stores_what_its_name_says() {
    let cases: [(StencilOp, u8); 8] = [
        (StencilOp::Keep, 200),
        (StencilOp::Zero, 0),
        (StencilOp::Replace, 7),
        (StencilOp::IncrementClamp, 201),
        (StencilOp::DecrementClamp, 199),
        (StencilOp::Invert, !200),
        (StencilOp::IncrementWrap, 201),
        (StencilOp::DecrementWrap, 199),
    ];
    for (operation, ought) in cases {
        assert_eq!(stencilled(operation, 200, 7, StencilOp::Zero), ought, "{operation:?}");
    }
    for (start, operation, ought) in [(255_u8, StencilOp::IncrementClamp, 255_u8), (255, StencilOp::IncrementWrap, 0), (0, StencilOp::DecrementClamp, 0), (0, StencilOp::DecrementWrap, 255)] {
        assert_eq!(stencilled(operation, start, 0, StencilOp::Keep), ought, "{operation:?} from {start}");
    }
}

type Factor = fn(Rgba, Rgba) -> Rgba;

#[test]
fn every_blend_factor_and_operation_reaches_the_attachment_unchanged() {
    let source = [0.5, 0.25, 0.125, 0.5];
    let destination = [0.125, 0.5, 0.25, 0.75];
    let factors: [Factor; 11] = [
        |_, _| [0.0; 4],
        |_, _| [1.0; 4],
        |s, _| s,
        |s, _| s.map(|c| 1.0 - c),
        |_, d| d,
        |_, d| d.map(|c| 1.0 - c),
        |s, _| [s[3]; 4],
        |s, _| [1.0 - s[3]; 4],
        |_, d| [d[3]; 4],
        |_, d| [1.0 - d[3]; 4],
        |s, d| [s[3].min(1.0 - d[3]); 4],
    ];
    let operations: [fn(f32, f32) -> f32; 5] = [|s, d| s + d, |s, d| s - d, |s, d| d - s, f32::min, f32::max];
    let mut checked = 0;
    for factor in factors {
        for operation in operations {
            let weight = factor(source, destination);
            let expected = [0, 1, 2, 3].map(|i: usize| operation(source[i] * weight[i], destination[i]));
            let mut colour = Colour::new(1, 1, 1, false);
            colour.set(0, 0, 0, bits(destination));
            let state = AttachmentBlend { enabled: true, write_mask: ALL };
            let tried = Fragment { coverage: 0b1, ..fragment(source, 0.5, state) };
            pass::write_fragment(&mut colour, &mut None, &tried, &[bits(expected)]).unwrap();
            let got = at(&colour, 0, 0, 0);
            assert!((0..4).all(|i| near(got[i], expected[i])), "{got:?} against {expected:?}");
            checked += 1;
        }
    }
    assert!(checked >= 50, "only {checked} states were exercised");
}

#[test]
fn colour_and_depth_read_back_through_their_own_conversions() {
    let mut colour = Colour::new(2, 1, 2, false);
    colour.set(0, 0, 0, bits([0.0, 0.0, 0.0, 1.0]));
    colour.set(0, 0, 1, bits([1.0, 1.0, 1.0, 1.0]));
    colour.set(1, 0, 0, bits([0.25, 0.25, 0.25, 1.0]));
    colour.set(1, 0, 1, bits([0.25, 0.25, 0.25, 1.0]));
    let resolved = colour.resolve(&average(&colour));
    assert!(near(f32::from_bits(resolved[0][0]), 0.5) && near(f32::from_bits(resolved[1][0]), 0.25));

    let steps = |format: DepthFormat| match format {
        DepthFormat::Depth16 => Some(65_535.0_f64),
        DepthFormat::Depth24 | DepthFormat::Depth24Stencil8 => Some(16_777_215.0),
        _ => None,
    };
    for format in [DepthFormat::Depth16, DepthFormat::Depth24, DepthFormat::Depth32F, DepthFormat::Depth24Stencil8, DepthFormat::Depth32FStencil8] {
        let stored = match steps(format) {
            Some(most) => Stored::Steps((0.375 * most).round() as u32),
            None => float(0.375),
        };
        let mut buffer = DepthStencil::new(1, 1, 1, format, stored);
        buffer.clear(stored, 0);
        let read = match buffer.depth_at(0, 0, 0) {
            Stored::Steps(count) => (count as f64 / steps(format).unwrap()) as f32,
            Stored::Float(bits) => f32::from_bits(bits),
        };
        let precision = steps(format).map_or(0.0, |most| (1.0 / most) as f32);
        assert!((read - 0.375).abs() <= precision, "{format:?} read back {read}");
    }
}

#[test]
fn a_write_mask_of_the_stencil_keeps_the_other_bits() {
    let face = StencilFace {
        compare: CompareOp::Always,
        read_mask: 0xFF,
        write_mask: 0x0F,
        reference: 0xFF,
        on_fail: StencilOp::Keep,
        on_depth_fail: StencilOp::Keep,
        on_pass: StencilOp::Replace,
    };
    let outcome = depth_stencil_test(CompareOp::Always, false, float(0.5), float(0.5), Some((face, 0xA0)));
    assert!(outcome.passed);
    assert_eq!(outcome.stencil, Some(0xAF));
    assert_eq!(outcome.depth, None, "depth writes were off");
    // Depths of two formats are unordered.
    assert!(!depth_stencil_test(CompareOp::Less, true, float(0.1), Stored::Steps(9), None).passed);
}

#[test]
fn the_furthest_depth_bounds_what_was_read() {
    let mut buffer = DepthStencil::new(3, 2, 1, DepthFormat::Depth32F, float(0.5));
    buffer.clear(float(0.25), 3);
    assert_eq!(buffer.stencil_at(2, 1, 0), 3);
    assert_eq!(buffer.depths_in(0, 0, 2, 2).len(), 4);
    let readings: Vec<u32> = [0.2_f32, 0.9, f32::NAN, 0.4].iter().map(|value| value.to_bits()).collect();
    assert_eq!(pass::furthest_in(&readings), 0.9_f32.to_bits());
    assert_eq!(pass::furthest_in(&[]), 0);
}

#[test]
fn a_sample_that_is_set_is_read_back_and_no_other_changes() {
    let mut colour = Colour::new(3, 2, 4, false);
    colour.set(2, 1, 3, bits([0.5; 4]));
    for y in 0..2 {
        for x in 0..3 {
            for sample in 0..4 {
                let expected = if (x, y, sample) == (2, 1, 3) { bits([0.5; 4]) } else { ZERO };
                assert_eq!(colour.at(x, y, sample), expected);
            }
        }
    }
    assert_eq!(colour.samples_at(2, 1), vec![ZERO, ZERO, ZERO, bits([0.5; 4])]);
}
