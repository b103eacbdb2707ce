use chess_solver_3::movegen::pawn::{pawn_attack, reverse_pawn_attack};

fn show(bb: u64) {
    println!("LSB");
    for i in 0..8 {
        let lane = (bb >> (8 * i)) as u8;
        let mut line = String::new();
        for j in 0..8 {
            line.push(if lane & (1 << j) != 0 { '1' } else { '0' });
            line.push(' ');
        }
        println!("{}", line);
    }
    println!("                MSB");
}

#[test]
pub fn test_pawn_attack() {
    let bb = pawn_attack(6);
    show(bb);
    assert_eq!(bb, (1u64 << 13) | (1u64 << 15));
}

#[test]
pub fn test_reverse_pawn_attack() {
    let bb = reverse_pawn_attack(63);
    show(bb);
    assert_eq!(bb, 1u64 << 54);
}
