use pi_atom::{Atom, AtomPool};
use std::collections::HashMap;

#[test]
fn test_atom1() {
    let mut pool = AtomPool::new();
    let at3 = Atom::new(
        &mut pool,
        "RES_GLTF_ACCESSOR_BUFFER_VIEW:app/scene_res/res/u3d_anim/eff_sz_chouka_daiji/eff_sz_chouka_daiji.gltf#Indices#19",
    );
    let at4 = Atom::new(
        &mut pool,
        "RES_GLTF_ACCESSOR_BUFFER_VIEW:app/scene_res/res/u3d_anim/eff_sz_chouka_daiji/eff_sz_chouka_daiji.gltf#Indices#34",
    );
    println!("at3:{:?}, at4:{:?}", at3.str_hash(), at4.str_hash())
}

#[test]
fn test_atom() {
    let mut pool = AtomPool::new();
    let at3 = Atom::new(&mut pool, "afg");
    assert_eq!(at3.as_str(&pool), "afg");

    let mut map = HashMap::new();
    let time = std::time::Instant::now();
    for i in 0..1000000 {
        map.insert(i.to_string(), i);
    }
    println!("insert map time:{:?}", std::time::Instant::now() - time);

    let time = std::time::Instant::now();
    let mut vec1 = vec![];
    for i in 0..1000000 {
        vec1.push(Atom::create(&mut pool, i.to_string()));
    }
    println!("atom from time:{:?}", std::time::Instant::now() - time);

    let time = std::time::Instant::now();
    let mut vec2 = vec![];
    for i in 0..1000000 {
        vec2.push(Atom::create(&mut pool, i.to_string()));
    }
    println!("atom look time:{:?}", std::time::Instant::now() - time);

    let mut arr3 = Vec::new();
    for i in 0..1000 {
        arr3.push(Atom::create(&mut pool, i.to_string()));
    }
    let mut arr4 = Vec::new();
    let time = std::time::Instant::now();
    for i in 0..1000 {
        for _ in 0..1000 {
            let text = arr3[i].to_owned_string(&pool);
            arr4.push(Atom::create(&mut pool, text));
        }
    }
    println!("atom1 from time:{:?}", std::time::Instant::now() - time);

    let time = std::time::Instant::now();
    for i in 0..1000 {
        for _ in 0..1000 {
            let _ = arr3[i].as_str(&pool);
        }
    }
    println!("to_str time:{:?}", std::time::Instant::now() - time);
}
