use symbios_mesh::materials::{
    generate_checker_texture, generate_grid_texture, generate_noise_texture, TextureType,
};

fn pixel(data: &[u8], size: usize, x: usize, y: usize) -> [u8; 4] {
    let k = 4 * (y * size + x);
    [data[k], data[k + 1], data[k + 2], data[k + 3]]
}

#[test]
fn texture_type_names() {
    assert_eq!(TextureType::Plain.name(), "None");
    assert_eq!(TextureType::Grid.name(), "Grid");
    assert_eq!(TextureType::Noise.name(), "Noise");
    assert_eq!(TextureType::Checker.name(), "Checker");
}

#[test]
fn grid_texture_lines() {
    let data = generate_grid_texture(16, 1);
    assert_eq!(data.len(), 16 * 16 * 4);
    // Lines every 2 pixels, 1 pixel wide.
    assert_eq!(pixel(&data, 16, 0, 1), [255, 255, 255, 255]);
    assert_eq!(pixel(&data, 16, 1, 1), [180, 180, 180, 255]);
    assert_eq!(pixel(&data, 16, 3, 2), [255, 255, 255, 255]);
    assert_eq!(pixel(&data, 16, 3, 5), [180, 180, 180, 255]);
}

#[test]
fn noise_texture_values() {
    let data = generate_noise_texture(8, 42);
    assert_eq!(data.len(), 8 * 8 * 4);
    assert_eq!(pixel(&data, 8, 0, 0), [164, 164, 164, 255]);
    assert_eq!(pixel(&data, 8, 1, 0), [162, 162, 162, 255]);
    let other = generate_noise_texture(8, 7);
    assert_eq!(pixel(&other, 8, 3, 5), [123, 123, 123, 255]);
}

#[test]
fn checker_texture_tiles() {
    let data = generate_checker_texture(8, 2);
    assert_eq!(pixel(&data, 8, 0, 0), [220, 220, 220, 255]);
    assert_eq!(pixel(&data, 8, 1, 1), [220, 220, 220, 255]);
    assert_eq!(pixel(&data, 8, 2, 0), [160, 160, 160, 255]);
    assert_eq!(pixel(&data, 8, 2, 2), [220, 220, 220, 255]);
    assert_eq!(pixel(&data, 8, 7, 0), [160, 160, 160, 255]);
}

#[test]
fn empty_texture() {
    assert!(generate_checker_texture(0, 4).is_empty());
    assert!(generate_noise_texture(0, 1).is_empty());
}
